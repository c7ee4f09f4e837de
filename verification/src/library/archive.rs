//! The archive, and the queue of documents that the device has to delete.

use vstd::prelude::*;

use crate::error;
use crate::error::{CoreError, ErrorView};
use crate::hash;
use crate::hash::Sha256Hex;
use crate::library::documents;
use crate::library::documents::{EditRequest, EditRequestView, MetadataPatch, PatchView, PostAction};
use crate::library::documents::PostActionView;
use crate::library::rows::{ArchiveRow, ArchiveRowView, VersionRow, VersionRowView};
use crate::library::types::{ArchiveReason, ArchivedDocument, ArchivedView, DocumentSummary, RecordOutcome};
use crate::library::types::{RecordView, SummaryView};
use crate::library::types;
use crate::library::{Library, LibraryView};
use crate::library;
use crate::manifest;
use crate::table;
use crate::table::{Ranked, Row};
use crate::text;

verus! {

/// Archived documents rank by the time they were archived, newest first, and then by
/// their identifiers.
impl Ranked for ArchiveRow {
    open spec fn precedes(a: ArchiveRowView, b: ArchiveRowView) -> bool {
        text::lex_less(b.archived_at, a.archived_at) || (a.archived_at == b.archived_at
            && text::lex_less(a.document_id, b.document_id))
    }

    proof fn irreflexive(a: ArchiveRowView) {
        text::lemma_lex_irreflexive(a.archived_at);
        text::lemma_lex_irreflexive(a.document_id);
    }

    proof fn transitive(a: ArchiveRowView, b: ArchiveRowView, c: ArchiveRowView) {
        if text::lex_less(b.archived_at, a.archived_at) && text::lex_less(c.archived_at, b.archived_at) {
            text::lemma_lex_transitive(c.archived_at, b.archived_at, a.archived_at);
        }
        if text::lex_less(a.document_id, b.document_id) && text::lex_less(b.document_id, c.document_id) {
            text::lemma_lex_transitive(a.document_id, b.document_id, c.document_id);
        }
    }

    proof fn total(a: ArchiveRowView, b: ArchiveRowView) {
        text::lemma_lex_total(a.archived_at, b.archived_at);
        text::lemma_lex_total(a.document_id, b.document_id);
    }

    fn before(&self, other: &Self) -> (r: bool) {
        if text::str_less(other.archived_at.as_str(), self.archived_at.as_str()) {
            true
        } else if text::str_eq(self.archived_at.as_str(), other.archived_at.as_str()) {
            text::str_less(self.document_id.as_str(), other.document_id.as_str())
        } else {
            false
        }
    }
}

/// An archived document as the archive shows it. An unknown reason counts as a local
/// deletion.
pub open spec fn archived_entry(v: LibraryView, row: ArchiveRowView) -> Result<ArchivedView, ErrorView> {
    if !hash::is_hex_digest(row.manifest_hash) {
        Err(
            ErrorView::Corrupt {
                path: v.db_path,
                reason: "bad manifest hash for archived document "@ + row.document_id,
            },
        )
    } else {
        Ok(
            ArchivedView {
                document_id: row.document_id,
                visible_name: row.visible_name,
                doc_type: row.doc_type,
                parent: row.parent,
                manifest_hash: row.manifest_hash,
                version_id: row.version_id,
                reason: match types::reason_of_text(row.reason) {
                    Some(reason) => reason,
                    None => ArchiveReason::Local,
                },
                archived_at: row.archived_at,
            },
        )
    }
}

/// The archive entries for `rows`, up to the first that is corrupt.
pub open spec fn archived_entries(v: LibraryView, rows: Seq<ArchiveRowView>) -> Result<
    Seq<ArchivedView>,
    ErrorView,
>
    decreases rows.len(),
{
    if rows.len() == 0 {
        Ok(seq![])
    } else {
        match archived_entries(v, rows.drop_last()) {
            Err(e) => Err(e),
            Ok(list) => match archived_entry(v, rows.last()) {
                Err(e) => Err(e),
                Ok(entry) => Ok(list.push(entry)),
            },
        }
    }
}

/// The archive, newest first.
pub open spec fn archive_listing(v: LibraryView) -> Result<Seq<ArchivedView>, ErrorView> {
    archived_entries(v, table::ranked::<ArchiveRow>(v.archived))
}

proof fn lemma_archived_fail(v: LibraryView, rows: Seq<ArchiveRowView>, n: int)
    requires
        0 <= n <= rows.len(),
        archived_entries(v, rows.take(n)) is Err,
    ensures
        archived_entries(v, rows) == archived_entries(v, rows.take(n)),
    decreases rows.len(),
{
    if n == rows.len() {
        assert(rows.take(n) =~= rows);
    } else {
        assert(rows.drop_last().take(n) =~= rows.take(n));
        lemma_archived_fail(v, rows.drop_last(), n);
    }
}

/// The folder that an archived document goes back to: the one it was in, if that folder
/// is still there.
pub open spec fn home_of_archived(v: LibraryView, row: ArchiveRowView) -> Option<Seq<char>> {
    match row.parent {
        Some(p) => if p.len() > 0 && v.folders.contains_key(p) && !v.folders[p].deleted_locally {
            Some(p)
        } else {
            None
        },
        None => None,
    }
}

/// The edit by which a document leaves for the archive.
pub open spec fn archive_patch() -> PatchView {
    PatchView { deleted: Some(true), parent: Some("trash"@), visible_name: None }
}

/// The edit by which a document comes back to the folder `home`.
pub open spec fn unarchive_patch(home: Option<Seq<char>>) -> PatchView {
    PatchView {
        deleted: Some(false),
        parent: Some(
            match home {
                Some(p) => p,
                None => Seq::empty(),
            },
        ),
        visible_name: None,
    }
}

/// A document on its way back from the archive.
#[derive(Debug)]
pub struct Unarchiving {
    /// The edit to apply and record.
    pub request: EditRequest,
    pub visible_name: String,
    pub doc_type: String,
    /// The folder it comes back to.
    pub parent: Option<String>,
}

/// The model of an [`Unarchiving`].
pub struct UnarchivingView {
    pub request: EditRequestView,
    pub visible_name: Seq<char>,
    pub doc_type: Seq<char>,
    pub parent: Option<Seq<char>>,
}

impl DeepView for Unarchiving {
    type V = UnarchivingView;

    open spec fn deep_view(&self) -> UnarchivingView {
        UnarchivingView {
            request: self.request.deep_view(),
            visible_name: self.visible_name@,
            doc_type: self.doc_type@,
            parent: self.parent.deep_view(),
        }
    }
}

/// Whether `r` is the answer to the request to bring a document back.
pub open spec fn answers_return(
    v: LibraryView,
    document_id: Seq<char>,
    r: Result<UnarchivingView, ErrorView>,
) -> bool {
    if !v.archived.contains_key(document_id) {
        r == Err::<UnarchivingView, ErrorView>(
            ErrorView::NotFound("archived document "@ + document_id),
        )
    } else {
        let row = v.archived[document_id];
        let home = home_of_archived(v, row);
        &&& r matches Ok(u) ==> u.visible_name == row.visible_name && u.doc_type == row.doc_type
            && u.parent == home
        &&& documents::answers_edit(
            v,
            document_id,
            unarchive_patch(home),
            PostActionView::Unarchive,
            match r {
                Ok(u) => Ok(u.request),
                Err(e) => Err(e),
            },
        )
    }
}

/// What is said of a document that has come back from the archive.
pub open spec fn summary_of_return(
    v: LibraryView,
    document_id: Seq<char>,
    visible_name: Seq<char>,
    doc_type: Seq<char>,
    parent: Option<Seq<char>>,
    recorded: RecordView,
) -> SummaryView {
    SummaryView {
        document_id,
        visible_name,
        doc_type,
        current_manifest: recorded.manifest_hash,
        current_version_id: recorded.version_id,
        last_observed_at: match v.version(recorded.version_id) {
            Some(row) => row.observed_at,
            None => Seq::empty(),
        },
        parent,
        size_bytes: documents::size_and_pages(v, recorded.manifest_hash).0,
        page_count: documents::size_and_pages(v, recorded.manifest_hash).1,
        has_unpushed_changes: true,
    }
}

/// The log without the versions of one document.
pub open spec fn without_document(versions: Seq<VersionRowView>, document_id: Seq<char>) -> Seq<
    VersionRowView,
>
    decreases versions.len(),
{
    if versions.len() == 0 {
        seq![]
    } else {
        let rest = without_document(versions.drop_last(), document_id);
        if versions.last().document_id == document_id {
            rest
        } else {
            rest.push(versions.last())
        }
    }
}

/// Dropping the versions of a document keeps the others, in their order.
pub proof fn lemma_without_document(versions: Seq<VersionRowView>, document_id: Seq<char>)
    ensures
        forall|row: VersionRowView| #[trigger]
            without_document(versions, document_id).contains(row) <==> (versions.contains(row)
                && row.document_id != document_id),
        library::ids_ascend(versions) ==> library::ids_ascend(without_document(versions, document_id)),
    decreases versions.len(),
{
    let kept = without_document(versions, document_id);
    if versions.len() > 0 {
        let init = versions.drop_last();
        let rest = without_document(init, document_id);
        let last = versions.last();
        lemma_without_document(init, document_id);
        assert forall|row: VersionRowView| #[trigger] kept.contains(row) <==> (versions.contains(row)
            && row.document_id != document_id) by {
            if kept.contains(row) {
                let i = choose|i: int| 0 <= i < kept.len() && kept[i] == row;
                if i < rest.len() {
                    assert(rest[i] == row);
                    assert(rest.contains(row));
                    let j = choose|j: int| 0 <= j < init.len() && init[j] == row;
                    assert(versions[j] == row);
                } else {
                    assert(versions[versions.len() - 1] == row);
                }
            }
            if versions.contains(row) && row.document_id != document_id {
                let j = choose|j: int| 0 <= j < versions.len() && versions[j] == row;
                if j < init.len() {
                    assert(init[j] == row);
                    assert(rest.contains(row));
                    let i = choose|i: int| 0 <= i < rest.len() && rest[i] == row;
                    assert(kept[i] == row);
                } else {
                    assert(kept[kept.len() - 1] == row);
                }
            }
        }
        if library::ids_ascend(versions) {
            assert(library::ids_ascend(init)) by {
                assert forall|i: int, j: int| 0 <= i < j < init.len() implies (#[trigger] init[i]).id < (
                #[trigger] init[j]).id by {
                    assert(versions[i].id < versions[j].id);
                }
            }
            assert forall|i: int, j: int| 0 <= i < j < kept.len() implies (#[trigger] kept[i]).id < (
            #[trigger] kept[j]).id by {
                if j < rest.len() {
                    assert(rest[i].id < rest[j].id);
                } else {
                    assert(rest.contains(rest[i]));
                    let k = choose|k: int| 0 <= k < init.len() && init[k] == rest[i];
                    assert(versions[k].id < versions[versions.len() - 1].id);
                }
            }
        }
    }
}

/// The library after an archived document has been purged: its records are gone, and if
/// the device has ever had it, the device is to delete it too.
pub open spec fn purged(v: LibraryView, document_id: Seq<char>) -> LibraryView {
    LibraryView {
        archived: v.archived.remove(document_id),
        versions: without_document(v.versions, document_id),
        sync: v.sync.remove(document_id),
        deletion_queue: if v.sync.contains_key(document_id)
            && v.sync[document_id].last_seen_manifest is Some {
            v.deletion_queue.insert(document_id)
        } else {
            v.deletion_queue
        },
        ..v
    }
}

/// Records that agree still agree once an archived document is purged.
pub proof fn lemma_purged_agrees(v: LibraryView, document_id: Seq<char>)
    requires
        v.consistent(),
        v.archived.contains_key(document_id),
    ensures
        purged(v, document_id).consistent(),
{
    lemma_without_document(v.versions, document_id);
    let p = purged(v, document_id);
    let after = p.versions;
    assert(library::agree(p.documents, p.archived, after)) by {
        reveal(library::agree);
        assert(v.archived.dom().contains(document_id));
        assert(p.documents.dom().disjoint(p.archived.dom()));
        assert forall|k: Seq<char>| #[trigger] v.documents.contains_key(k) implies library::logs(
            after,
            k,
            v.documents[k].current_version_id,
        ) by {
            assert(v.documents.dom().contains(k));
            let id = v.documents[k].current_version_id;
            let i = choose|i: int|
                0 <= i < v.versions.len() && (#[trigger] v.versions[i]).id == id
                    && v.versions[i].document_id == k;
            assert(v.versions.contains(v.versions[i]));
            assert(after.contains(v.versions[i]));
            let j = choose|j: int| 0 <= j < after.len() && after[j] == v.versions[i];
            assert(after[j].id == id);
        }
    }
    assert forall|j: int| 0 <= j < after.len() implies exists|i: int|
        0 <= i < v.versions.len() && #[trigger] v.versions[i] == #[trigger] after[j] by {
        assert(after.contains(after[j]));
        let i = choose|i: int| 0 <= i < v.versions.len() && v.versions[i] == after[j];
        assert(v.versions[i] == after[j]);
    }
    assert(library::owned(p.documents, p.archived, after, p.manifests)) by {
        reveal(library::owned);
    }
    assert(library::refs_fit(after, p.blob_refs, p.manifests)) by {
        reveal(library::refs_fit);
    }
}

impl Library {
    /// Whether a document is archived.
    pub fn is_archived(&self, document_id: &str) -> (r: bool)
        requires
            self.wf(),
        ensures
            r == self@.archived.contains_key(document_id@),
    {
        self.archived.contains(document_id)
    }

    /// Begins to archive a live document. `Ok(None)` says that it is archived already and
    /// nothing is left to do; otherwise the edit has to be applied and recorded.
    pub fn archive_document(&self, document_id: &str, reason: ArchiveReason) -> (r: Result<
        Option<EditRequest>,
        CoreError,
    >)
        requires
            self.wf(),
        ensures
            if self@.archived.contains_key(document_id@) {
                r matches Ok(None)
            } else {
                match documents::edit_base(self@, document_id@, PostActionView::Keep) {
                    Err(e) => r matches Err(x) && x.deep_view() == e,
                    Ok(m) => {
                        let post = PostActionView::Archive {
                            reason,
                            visible_name: m.visible_name,
                            doc_type: m.doc_type,
                            original_parent: m.parent,
                        };
                        match r {
                            Ok(Some(request)) => request.wf() && documents::answers_edit(
                                self@,
                                document_id@,
                                archive_patch(),
                                post,
                                Ok(request.deep_view()),
                            ),
                            Ok(None) => false,
                            Err(e) => documents::answers_edit(
                                self@,
                                document_id@,
                                archive_patch(),
                                post,
                                Err(e.deep_view()),
                            ),
                        }
                    },
                }
            },
    {
        if self.archived.contains(document_id) {
            return Ok(None);
        }
        let row = match self.documents.get(document_id) {
            Some(row) => row,
            None => {
                return Err(CoreError::NotFound(text::concat2("document ", document_id)));
            },
        };
        let digest = match self.digest_for(document_id, row.current_manifest.as_str()) {
            Ok(digest) => digest,
            Err(e) => {
                return Err(e);
            },
        };
        let m = match self.manifest(&digest) {
            Ok(m) => m,
            Err(e) => {
                return Err(e);
            },
        };
        let post = PostAction::Archive {
            reason,
            visible_name: m.visible_name.clone(),
            doc_type: m.doc_type.clone(),
            original_parent: text::copy_opt_string(&m.parent),
        };
        let patch = MetadataPatch {
            deleted: Some(true),
            parent: Some("trash".to_owned()),
            visible_name: None,
        };
        match self.request_edit(document_id, patch, post) {
            Ok(request) => Ok(Some(request)),
            Err(e) => Err(e),
        }
    }

    /// Begins to bring an archived document back. The edit has to be applied and recorded;
    /// [`Self::unarchived_summary`] then describes the document.
    pub fn unarchive_document(&self, document_id: &str) -> (r: Result<Unarchiving, CoreError>)
        requires
            self.wf(),
        ensures
            answers_return(self@, document_id@, error::outcome(r)),
            r matches Ok(u) ==> u.request.wf(),
    {
        let row = match self.archived.get(document_id) {
            Some(row) => row,
            None => {
                return Err(CoreError::NotFound(text::concat2("archived document ", document_id)));
            },
        };
        let parent: Option<String> = match &row.parent {
            Some(p) => if p.as_str().is_empty() {
                None
            } else {
                match self.folders.get(p.as_str()) {
                    Some(folder) => if folder.deleted_locally {
                        None
                    } else {
                        Some(p.clone())
                    },
                    None => None,
                }
            },
            None => None,
        };
        let target = match &parent {
            Some(p) => p.clone(),
            None => String::new(),
        };
        let patch = MetadataPatch { deleted: Some(false), parent: Some(target), visible_name: None };
        match self.request_edit(document_id, patch, PostAction::Unarchive) {
            Ok(request) => Ok(
                Unarchiving {
                    request,
                    visible_name: row.visible_name.clone(),
                    doc_type: row.doc_type.clone(),
                    parent,
                },
            ),
            Err(e) => Err(e),
        }
    }

    /// Describes a document that has come back from the archive.
    pub fn unarchived_summary(
        &self,
        document_id: &str,
        visible_name: String,
        doc_type: String,
        parent: Option<String>,
        recorded: &RecordOutcome,
    ) -> (s: DocumentSummary)
        requires
            self.wf(),
        ensures
            s.deep_view() == summary_of_return(
                self@,
                document_id@,
                visible_name@,
                doc_type@,
                parent.deep_view(),
                recorded.deep_view(),
            ),
    {
        let (size_bytes, page_count) = self.measure(&recorded.manifest_hash);
        DocumentSummary {
            document_id: document_id.to_owned(),
            visible_name,
            doc_type,
            current_manifest: recorded.manifest_hash.clone(),
            current_version_id: recorded.version_id,
            last_observed_at: self.observed_at(recorded.version_id),
            parent,
            size_bytes,
            page_count,
            has_unpushed_changes: true,
        }
    }

    /// When a version was recorded; empty for a version that is not in the log.
    pub(crate) fn observed_at(&self, version_id: i64) -> (s: String)
        requires
            self.wf(),
        ensures
            s@ == (match self@.version(version_id) {
                Some(row) => row.observed_at,
                None => Seq::empty(),
            }),
    {
        match self.version_position(version_id) {
            Some(i) => {
                assert(self.versions[i as int].deep_view() == self@.versions[i as int]);
                self.versions[i].observed_at.clone()
            },
            None => String::new(),
        }
    }

    /// Drops the versions of a document from the log.
    fn drop_versions(&mut self, document_id: &str)
        requires
            old(self).wf(),
        ensures
            final(self).wf(),
            final(self).layout() == old(self).layout(),
            final(self)@ == (LibraryView {
                versions: without_document(old(self)@.versions, document_id@),
                ..old(self)@
            }),
    {
        let ghost rows = self.versions.deep_view();
        let mut kept: Vec<VersionRow> = Vec::new();
        let mut old_rows: Vec<VersionRow> = Vec::new();
        std::mem::swap(&mut old_rows, &mut self.versions);
        let mut i: usize = 0;
        proof {
            assert(rows.take(0) =~= seq![]);
            assert(kept.deep_view() =~= seq![]);
        }
        while i < old_rows.len()
            invariant
                i <= old_rows.len(),
                rows == old_rows.deep_view(),
                kept.deep_view() == without_document(rows.take(i as int), document_id@),
            decreases old_rows.len() - i,
        {
            proof {
                assert(rows.take(i + 1).drop_last() =~= rows.take(i as int));
                assert(rows.take(i + 1).last() == rows[i as int]);
            }
            if !text::str_eq(old_rows[i].document_id.as_str(), document_id) {
                let ghost before = kept.deep_view();
                let row = old_rows[i].copy();
                kept.push(row);
                assert(kept.deep_view() =~= before.push(row.deep_view()));
            }
            i = i + 1;
        }
        self.versions = kept;
        proof {
            assert(rows.take(rows.len() as int) =~= rows);
            lemma_without_document(rows, document_id@);
            let after = self.versions.deep_view();
            assert forall|k: int| 0 <= k < after.len() implies (#[trigger] after[k]).id
                < self.next_version_id by {
                assert(after.contains(after[k]));
                let j = choose|j: int| 0 <= j < rows.len() && rows[j] == after[k];
                assert(rows[j].id < old(self).next_version_id);
            }
        }
    }

    /// Deletes an archived document for good: its archive entry, its versions and what is
    /// known of it on the device.
    pub fn purge_archived_document(&mut self, document_id: &str) -> (r: Result<(), CoreError>)
        requires
            old(self).wf(),
        ensures
            final(self).wf(),
            old(self)@.consistent() ==> final(self)@.consistent(),
            final(self).layout() == old(self).layout(),
            r is Ok <==> old(self)@.archived.contains_key(document_id@),
            match r {
                Ok(_) => final(self)@ == purged(old(self)@, document_id@),
                Err(e) => final(self)@ == old(self)@ && e.deep_view() == ErrorView::NotFound(
                    "archived document "@ + document_id@,
                ),
            },
    {
        if !self.archived.contains(document_id) {
            return Err(CoreError::NotFound(text::concat2("archived document ", document_id)));
        }
        let was_synced = match self.sync.get(document_id) {
            Some(row) => row.last_seen_manifest.is_some(),
            None => false,
        };
        proof {
            if self@.consistent() {
                lemma_purged_agrees(self@, document_id@);
            }
        }
        self.archived.remove(document_id);
        self.drop_versions(document_id);
        self.sync.remove(document_id);
        if was_synced {
            self.load_deletion(document_id.to_owned());
        }
        Ok(())
    }

    /// The documents that the device has to delete, in ascending order.
    pub fn list_device_deletion_queue(&self) -> (ids: Vec<String>)
        requires
            self.wf(),
        ensures
            forall|i: int, j: int|
                0 <= i < j < ids@.len() ==> text::lex_less(
                    #[trigger] ids.deep_view()[i],
                    #[trigger] ids.deep_view()[j],
                ),
            ids.deep_view().to_set() == self@.deletion_queue,
    {
        let ghost rows = self.deletion_queue.listing();
        let mut ids: Vec<String> = Vec::new();
        let mut i: usize = 0;
        while i < self.deletion_queue.len()
            invariant
                self.wf(),
                rows == self.deletion_queue.listing(),
                i <= rows.len(),
                ids.deep_view() == rows.take(i as int),
            decreases rows.len() - i,
        {
            let ghost before = ids.deep_view();
            let id = self.deletion_queue.row(i).clone();
            ids.push(id);
            assert(ids.deep_view() =~= before.push(id@));
            assert(ids.deep_view() =~= rows.take(i + 1));
            i = i + 1;
        }
        proof {
            assert(rows.take(rows.len() as int) =~= rows);
            assert forall|i: int, j: int| 0 <= i < j < ids@.len() implies text::lex_less(
                #[trigger] ids.deep_view()[i],
                #[trigger] ids.deep_view()[j],
            ) by {
                assert(text::lex_less(String::key_of(rows[i]), String::key_of(rows[j])));
            }
            assert forall|id: Seq<char>| #[trigger] rows.to_set().contains(id)
                == self@.deletion_queue.contains(id) by {
                if rows.contains(id) {
                    let i = choose|i: int| 0 <= i < rows.len() && rows[i] == id;
                    table::lemma_by_key::<String>(rows, i);
                }
                if self@.deletion_queue.contains(id) {
                    let i = table::lemma_key_has_row::<String>(rows, id);
                    assert(rows[i] == id);
                }
            }
            assert(rows.to_set() =~= self@.deletion_queue);
        }
        ids
    }

    /// Takes a document off the deletion queue, once the device has deleted it.
    pub fn dequeue_device_deletion(&mut self, document_id: &str)
        requires
            old(self).wf(),
        ensures
            final(self).wf(),
            final(self).layout() == old(self).layout(),
            final(self)@ == (LibraryView {
                deletion_queue: old(self)@.deletion_queue.remove(document_id@),
                ..old(self)@
            }),
    {
        self.deletion_queue.remove(document_id);
        assert(self@.deletion_queue =~= old(self)@.deletion_queue.remove(document_id@));
    }

    /// The archive, newest first.
    pub fn list_archived(&self) -> (r: Result<Vec<ArchivedDocument>, CoreError>)
        requires
            self.wf(),
        ensures
            error::outcome(r) == archive_listing(self@),
    {
        let order = self.archived.rank_order();
        let ghost rows = table::ranked::<ArchiveRow>(self@.archived);
        let mut out: Vec<ArchivedDocument> = Vec::new();
        let mut i: usize = 0;
        proof {
            assert(rows.take(0) =~= seq![]);
            assert(out.deep_view() =~= seq![]);
        }
        while i < order.len()
            invariant
                self.wf(),
                rows == table::ranked::<ArchiveRow>(self@.archived),
                rows == table::at_positions(self.archived.listing(), order@),
                forall|k: int|
                    0 <= k < order@.len() ==> (#[trigger] order@[k]) < self.archived.listing().len(),
                i <= order.len(),
                archived_entries(self@, rows.take(i as int)) == Ok::<Seq<ArchivedView>, ErrorView>(
                    out.deep_view(),
                ),
            decreases order.len() - i,
        {
            let row = self.archived.row(order[i]);
            proof {
                assert(rows.take(i + 1).drop_last() =~= rows.take(i as int));
                assert(rows.take(i + 1).last() == row.deep_view());
            }
            let digest = match Sha256Hex::from_hex(row.manifest_hash.as_str()) {
                Some(digest) => digest,
                None => {
                    proof {
                        lemma_archived_fail(self@, rows, i + 1);
                    }
                    return Err(
                        CoreError::Corrupt {
                            path: self.blobs.paths().db.clone(),
                            reason: text::concat2(
                                "bad manifest hash for archived document ",
                                row.document_id.as_str(),
                            ),
                        },
                    );
                },
            };
            let reason = match ArchiveReason::parse(row.reason.as_str()) {
                Some(reason) => reason,
                None => ArchiveReason::Local,
            };
            let entry = ArchivedDocument {
                document_id: row.document_id.clone(),
                visible_name: row.visible_name.clone(),
                doc_type: row.doc_type.clone(),
                parent: text::copy_opt_string(&row.parent),
                manifest_hash: digest,
                version_id: row.version_id,
                reason,
                archived_at: row.archived_at.clone(),
            };
            let ghost before = out.deep_view();
            out.push(entry);
            assert(out.deep_view() =~= before.push(entry.deep_view()));
            i = i + 1;
        }
        assert(rows.take(rows.len() as int) =~= rows);
        Ok(out)
    }
}

/// A document leaves for the archive marked as deleted and in the trash; it comes back marked as
/// not deleted, into the folder that it goes to, or to the root. Its name is not touched.
pub proof fn archiving_goes_by_the_trash(home: Option<Seq<char>>)
    ensures
        archive_patch().deleted == Some(true),
        archive_patch().parent == Some("trash"@),
        archive_patch().visible_name is None,
        unarchive_patch(home).deleted == Some(false),
        unarchive_patch(home).visible_name is None,
        home matches Some(p) ==> unarchive_patch(home).parent == Some(p),
        home is None ==> unarchive_patch(home).parent == Some(Seq::<char>::empty()),
{
}

/// A document whose folder is gone or deleted comes back to the root.
pub proof fn homeless_document_comes_back_to_the_root(v: LibraryView, row: ArchiveRowView)
    ensures
        home_of_archived(v, row) is None <==> match row.parent {
            Some(p) => p.len() == 0 || !v.folders.contains_key(p) || v.folders[p].deleted_locally,
            None => true,
        },
        home_of_archived(v, row) matches Some(p) ==> row.parent == Some(p),
{
}

/// What is said of a document that has come back: its name, its type and its folder, the version
/// that was recorded and when, the size of its files and its pages, and that it waits to be
/// pushed.
pub proof fn returned_document_is_described(
    v: LibraryView,
    document_id: Seq<char>,
    visible_name: Seq<char>,
    doc_type: Seq<char>,
    parent: Option<Seq<char>>,
    recorded: RecordView,
)
    ensures
        ({
            let s = summary_of_return(v, document_id, visible_name, doc_type, parent, recorded);
            &&& s.document_id == document_id
            &&& s.visible_name == visible_name
            &&& s.doc_type == doc_type
            &&& s.parent == parent
            &&& s.current_manifest == recorded.manifest_hash
            &&& s.current_version_id == recorded.version_id
            &&& s.has_unpushed_changes
            &&& v.version(recorded.version_id) matches Some(row) ==> s.last_observed_at
                == row.observed_at
            &&& v.manifest(recorded.manifest_hash) matches Ok(m) ==> s.size_bytes
                == manifest::total_size(m.files) as u64 && s.page_count == documents::page_count(
                m.content_meta,
            )
        }),
{
}

/// A purge touches one document: the archive, what is known of the device and the deletion queue
/// keep what they have of all others, and nothing else of the library changes.
pub proof fn purge_spares_the_rest(v: LibraryView, document_id: Seq<char>, other: Seq<char>)
    requires
        other != document_id,
    ensures
        ({
            let after = purged(v, document_id);
            &&& !after.archived.contains_key(document_id)
            &&& !after.sync.contains_key(document_id)
            &&& after.archived.contains_key(other) == v.archived.contains_key(other)
            &&& v.archived.contains_key(other) ==> after.archived[other] == v.archived[other]
            &&& after.sync.contains_key(other) == v.sync.contains_key(other)
            &&& v.sync.contains_key(other) ==> after.sync[other] == v.sync[other]
            &&& after.deletion_queue.contains(other) == v.deletion_queue.contains(other)
            &&& after.documents == v.documents
            &&& after.folders == v.folders
            &&& after.blobs == v.blobs
            &&& after.manifests == v.manifests
            &&& after.blob_refs == v.blob_refs
        }),
{
}

/// An archived document is shown as its row has it; a reason that is not known counts as a local
/// deletion, and a manifest hash that is no digest is reported.
pub proof fn archived_entry_says_what_its_row_says(v: LibraryView, row: ArchiveRowView)
    ensures
        archived_entry(v, row) is Ok <==> hash::is_hex_digest(row.manifest_hash),
        archived_entry(v, row) matches Ok(e) ==> {
            &&& e.document_id == row.document_id
            &&& e.visible_name == row.visible_name
            &&& e.doc_type == row.doc_type
            &&& e.parent == row.parent
            &&& e.manifest_hash == row.manifest_hash
            &&& e.version_id == row.version_id
            &&& e.archived_at == row.archived_at
            &&& row.reason == "device"@ ==> e.reason == ArchiveReason::Device
            &&& row.reason != "device"@ ==> e.reason == ArchiveReason::Local
        },
        archived_entry(v, row) matches Err(e) ==> e == (ErrorView::Corrupt {
            path: v.db_path,
            reason: "bad manifest hash for archived document "@ + row.document_id,
        }),
{
    reveal_strlit("local");
    reveal_strlit("device");
    assert("local"@[0] != "device"@[0]);
}

/// A document is brought back as the archive has it: under its name and its type, marked as not
/// deleted, and into the folder that it was in, if that is still there, or to the root.
pub proof fn document_is_brought_back_as_archived(
    v: LibraryView,
    document_id: Seq<char>,
    u: UnarchivingView,
)
    requires
        answers_return(v, document_id, Ok(u)),
    ensures
        v.archived.contains_key(document_id),
        u.visible_name == v.archived[document_id].visible_name,
        u.doc_type == v.archived[document_id].doc_type,
        u.request.document_id == document_id,
        u.request.post is Unarchive,
        u.request.patch.deleted == Some(false),
        u.request.patch.visible_name is None,
        u.parent matches Some(p) ==> v.archived[document_id].parent == Some(p)
            && v.folders.contains_key(p) && !v.folders[p].deleted_locally && u.request.patch.parent
            == Some(p),
        u.parent is None ==> u.request.patch.parent == Some(Seq::<char>::empty()),
        v.archived[document_id].parent matches Some(p) ==> p.len() > 0 && v.folders.contains_key(p)
            && !v.folders[p].deleted_locally ==> u.parent == Some(p),
{
}

} // verus!
