//! What holds of the library as a whole.

use vstd::prelude::*;

use crate::error::ErrorView;
use crate::hash;
use crate::library;
use crate::library::archive;
use crate::library::derived;
use crate::library::derived::DerivedView;
use crate::library::documents;
use crate::library::documents::{EditRequestView, EditedView, PatchView, PostActionView};
use crate::library::folders;
use crate::library::maintenance;
use crate::library::maintenance::{BlobFile, ExportView};
use crate::library::rows;
use crate::library::rows::{FolderRowView, SortIndex, VersionRowView};
use crate::library::types::{FolderPushKind, RecordView, Source};
use crate::library::versions;
use crate::library::LibraryView;
use crate::manifest;
use crate::manifest::{FileView, ManifestView};
use crate::paths;

verus! {

/// Whether a log is the beginning of another.
pub open spec fn is_beginning(before: Seq<VersionRowView>, after: Seq<VersionRowView>) -> bool {
    before.len() <= after.len() && after.take(before.len() as int) == before
}

/// Whether the version numbers ascend and lie below the next one.
pub open spec fn numbers_in_order(v: LibraryView) -> bool {
    library::ids_ascend(v.versions) && forall|i: int|
        0 <= i < v.versions.len() ==> (#[trigger] v.versions[i]).id < v.next_version_id
}

/// Recording a manifest takes nothing from the version log: what was there is the beginning of
/// what is there, and the numbers stay in order.
pub proof fn recording_only_appends(
    v: LibraryView,
    m: ManifestView,
    digest: Seq<char>,
    source: Source,
    now: Seq<char>,
)
    requires
        versions::record_result(v, m.document_id, digest) is Ok,
    ensures
        is_beginning(v.versions, versions::recorded(v, m, digest, source, now).versions),
        numbers_in_order(v) ==> numbers_in_order(versions::recorded(v, m, digest, source, now)),
{
    let after = versions::recorded(v, m, digest, source, now);
    assert(after.versions.take(v.versions.len() as int) =~= v.versions);
    if numbers_in_order(v) && !versions::is_current(v, m.document_id, digest) {
        assert forall|i: int, j: int| 0 <= i < j < after.versions.len() implies (
        #[trigger] after.versions[i]).id < (#[trigger] after.versions[j]).id by {
            assert(after.versions[i] == v.versions[i]);
        }
    }
}

/// Whatever is recorded becomes the current version of its document, and is in the log.
pub proof fn recorded_version_is_current(
    v: LibraryView,
    m: ManifestView,
    digest: Seq<char>,
    source: Source,
    now: Seq<char>,
)
    requires
        !versions::is_current(v, m.document_id, digest),
    ensures
        ({
            let after = versions::recorded(v, m, digest, source, now);
            &&& versions::is_current(after, m.document_id, digest)
            &&& after.versions.len() == v.versions.len() + 1
            &&& after.versions.last().document_id == m.document_id
            &&& after.versions.last().manifest_hash == digest
            &&& after.versions.last().id == after.documents[m.document_id].current_version_id
        }),
{
}

/// Recording the same manifest again adds no version, whatever it is recorded for.
pub proof fn recording_again_adds_nothing(
    v: LibraryView,
    m: ManifestView,
    digest: Seq<char>,
    first: Source,
    second: Source,
    now: Seq<char>,
    later: Seq<char>,
)
    ensures
        ({
            let once = versions::recorded(v, m, digest, first, now);
            let twice = versions::recorded(once, m, digest, second, later);
            &&& versions::record_result(once, m.document_id, digest) == Ok::<RecordView, ErrorView>(
                RecordView {
                    version_id: once.documents[m.document_id].current_version_id,
                    manifest_hash: digest,
                    unchanged: true,
                },
            )
            &&& twice == (LibraryView { sync: twice.sync, ..once })
            &&& second != Source::Pulled ==> twice == once
        }),
{
}

/// A pull leaves the device up to date; any other new version is one that the device lacks.
pub proof fn only_a_pull_settles_the_device(
    v: LibraryView,
    m: ManifestView,
    digest: Seq<char>,
    source: Source,
    now: Seq<char>,
)
    requires
        !versions::is_current(v, m.document_id, digest),
        !derived::device_has(v, m.document_id, digest),
    ensures
        documents::is_unpushed(
            versions::recorded(v, m, digest, source, now),
            m.document_id,
        ) == (source != Source::Pulled),
{
}

/// Recording a version of one document leaves the others as they are.
pub proof fn recording_leaves_other_documents(
    v: LibraryView,
    m: ManifestView,
    digest: Seq<char>,
    source: Source,
    now: Seq<char>,
    other: Seq<char>,
)
    requires
        other != m.document_id,
    ensures
        ({
            let after = versions::recorded(v, m, digest, source, now);
            &&& after.documents.contains_key(other) == v.documents.contains_key(other)
            &&& v.documents.contains_key(other) ==> after.documents[other] == v.documents[other]
            &&& after.sync.contains_key(other) == v.sync.contains_key(other)
            &&& v.sync.contains_key(other) ==> after.sync[other] == v.sync[other]
        }),
{
}

/// A log that goes on from another one has its versions, under their numbers.
proof fn lemma_longer_log(v: LibraryView, after: LibraryView, version_id: i64)
    requires
        is_beginning(v.versions, after.versions),
        library::ids_ascend(after.versions),
        v.version(version_id) is Some,
    ensures
        after.version(version_id) == v.version(version_id),
{
    let n = v.versions.len() as int;
    let i = choose|i: int| 0 <= i < n && (#[trigger] v.versions[i]).id == version_id;
    assert(v.versions[i].id == version_id);
    assert(after.versions.take(n)[i] == v.versions[i]);
    library::lemma_version(after, i);
}

/// The files of a manifest, as an export into a directory writes them.
pub open spec fn files_at(m: ManifestView, dest: Seq<char>) -> Seq<ExportView> {
    Seq::new(
        m.files.len(),
        |i: int|
            ExportView {
                blob: m.files[i].sha256,
                target: paths::joined(dest, m.files[i].path),
            },
    )
}

/// What is recorded can be exported: the new version yields all the files of its manifest, each
/// under its own path and with its own contents.
pub proof fn recorded_version_is_exported_whole(
    v: LibraryView,
    m: ManifestView,
    digest: Seq<char>,
    source: Source,
    now: Seq<char>,
    dest: Seq<char>,
)
    requires
        numbers_in_order(v),
        versions::record_version_result(v, m, digest) is Ok,
        !versions::is_current(v, m.document_id, digest),
        hash::is_hex_digest(digest),
        v.manifest(digest) == Ok::<ManifestView, ErrorView>(m),
    ensures
        maintenance::export_of(
            versions::recorded(v, m, digest, source, now),
            versions::record_result(v, m.document_id, digest)->Ok_0.version_id,
            dest,
        ) == Ok::<Seq<ExportView>, ErrorView>(files_at(m, dest)),
{
    let after = versions::recorded(v, m, digest, source, now);
    recording_only_appends(v, m, digest, source, now);
    library::lemma_version(after, v.versions.len() as int);
    assert(maintenance::export_of(after, v.next_version_id as i64, dest)->Ok_0 =~= files_at(m, dest));
}

/// Whatever is recorded later, for whichever document, a past version is exported as before.
pub proof fn past_version_stays_exportable(
    v: LibraryView,
    version_id: i64,
    m: ManifestView,
    digest: Seq<char>,
    source: Source,
    now: Seq<char>,
    dest: Seq<char>,
)
    requires
        numbers_in_order(v),
        v.version(version_id) is Some,
        versions::record_result(v, m.document_id, digest) is Ok,
    ensures
        maintenance::export_of(versions::recorded(v, m, digest, source, now), version_id, dest)
            == maintenance::export_of(v, version_id, dest),
{
    let after = versions::recorded(v, m, digest, source, now);
    recording_only_appends(v, m, digest, source, now);
    lemma_longer_log(v, after, version_id);
}

/// A past version is exported as before once its document, or another one, has been edited,
/// archived, brought back or given an artefact, and once all unpushed changes are undone.
pub proof fn edits_and_revert_keep_exports(
    v: LibraryView,
    version_id: i64,
    edited: EditedView,
    artefact: DerivedView,
    digest: Seq<char>,
    now: Seq<char>,
    dest: Seq<char>,
)
    requires
        numbers_in_order(v),
        v.version(version_id) is Some,
        documents::edit_result(v, edited, digest) is Ok,
        derived::derived_result(v, artefact, digest) is Ok,
    ensures
        ({
            let export = maintenance::export_of(v, version_id, dest);
            &&& maintenance::export_of(
                documents::metadata_recorded(v, edited, digest, now),
                version_id,
                dest,
            ) == export
            &&& maintenance::export_of(
                derived::derived_recorded(v, artefact, digest, now),
                version_id,
                dest,
            ) == export
            &&& maintenance::export_of(maintenance::reverted(v), version_id, dest) == export
        }),
{
    let edit = documents::metadata_recorded(v, edited, digest, now);
    recording_only_appends(v, edited.manifest, digest, Source::Restored, now);
    lemma_longer_log(v, edit, version_id);
    let attached = derived::derived_recorded(v, artefact, digest, now);
    recording_only_appends(v, artefact.manifest, digest, Source::Imported, now);
    lemma_longer_log(v, attached, version_id);
    let back = maintenance::reverted(v);
    assert(back.versions.take(v.versions.len() as int) =~= v.versions);
    lemma_longer_log(v, back, version_id);
}

/// When a document is purged, the versions of all others are exported as before, and its own
/// can be exported no longer.
pub proof fn purge_keeps_other_exports(
    v: LibraryView,
    document_id: Seq<char>,
    version_id: i64,
    dest: Seq<char>,
)
    requires
        numbers_in_order(v),
        v.version(version_id) is Some,
    ensures
        ({
            let after = archive::purged(v, document_id);
            if v.version(version_id)->0.document_id != document_id {
                maintenance::export_of(after, version_id, dest) == maintenance::export_of(
                    v,
                    version_id,
                    dest,
                )
            } else {
                after.version(version_id) is None
            }
        }),
{
    let after = archive::purged(v, document_id);
    let i = choose|i: int|
        0 <= i < v.versions.len() && (#[trigger] v.versions[i]).id == version_id;
    assert(v.versions[i].id == version_id);
    library::lemma_version(v, i);
    let row = v.versions[i];
    archive::lemma_without_document(v.versions, document_id);
    assert(v.versions.contains(row));
    assert forall|j: int| 0 <= j < after.versions.len() && (#[trigger] after.versions[j]).id
        == version_id implies after.versions[j] == row && row.document_id != document_id by {
        let other = after.versions[j];
        assert(after.versions.contains(other));
        assert(v.versions.contains(other));
        let k = choose|k: int| 0 <= k < v.versions.len() && v.versions[k] == other;
        library::lemma_version(v, k);
    }
    if row.document_id != document_id {
        assert(after.versions.contains(row));
        let j = choose|j: int| 0 <= j < after.versions.len() && after.versions[j] == row;
        assert(after.versions[j].id == version_id);
        assert(after.version(version_id) == Some(row));
    }
}

/// An edit of a document changes nothing but its metadata file, its name and its folder.
pub proof fn edit_spares_the_contents(request: EditRequestView, metadata: Seq<u8>, now_ms: i64)
    requires
        documents::is_metadata_index(request.manifest.files, request.metadata_index),
    ensures
        documents::applied(request, metadata, now_ms) matches Ok(edited) ==> {
            let before = request.manifest;
            let after = edited.manifest;
            &&& edited.document_id == request.document_id
            &&& after.document_id == before.document_id
            &&& after.doc_type == before.doc_type
            &&& after.content_meta == before.content_meta
            &&& after.files.len() == before.files.len()
            &&& forall|i: int|
                0 <= i < before.files.len() && i != request.metadata_index ==> (
                #[trigger] after.files[i]) == before.files[i]
            &&& after.files[request.metadata_index].path
                == before.files[request.metadata_index].path
            &&& after.files[request.metadata_index].sha256 == hash::digest_hex(
                edited.metadata_bytes,
            )
        },
{
}

/// An archived document is left alone: no version can be recorded for it.
pub proof fn archived_document_is_left_alone(v: LibraryView, m: ManifestView, digest: Seq<char>)
    requires
        v.archived.contains_key(m.document_id),
    ensures
        versions::record_version_result(v, m, digest) is Err,
        manifest::first_stray(m.files) is None ==> versions::record_version_result(v, m, digest)
            == Err::<RecordView, ErrorView>(ErrorView::DocumentArchived(m.document_id)),
{
}

/// An archived document can be edited only to bring it back: another edit is neither begun nor,
/// if it was begun before, recorded.
pub proof fn archived_document_is_not_edited(
    v: LibraryView,
    document_id: Seq<char>,
    edited: EditedView,
    artefact: DerivedView,
    digest: Seq<char>,
)
    requires
        v.live_and_archived_apart(),
        v.archived.contains_key(document_id),
        edited.document_id == document_id,
        !(edited.post is Unarchive),
        artefact.document_id == document_id,
    ensures
        ({
            let e = ErrorView::NotFound("document "@ + document_id);
            &&& documents::edit_base(v, document_id, PostActionView::Keep) == Err::<
                ManifestView,
                ErrorView,
            >(e)
            &&& documents::edit_result(v, edited, digest) == Err::<RecordView, ErrorView>(e)
            &&& derived::derived_result(v, artefact, digest) == Err::<RecordView, ErrorView>(e)
        }),
{
    assert(v.archived.dom().contains(document_id));
    assert(!v.documents.dom().contains(document_id));
}

/// An edit undoes no other: once a document has a new version, an edit that started from the one
/// before is refused.
pub proof fn late_edit_is_refused(
    v: LibraryView,
    edited: EditedView,
    artefact: DerivedView,
    digest: Seq<char>,
)
    requires
        v.documents.contains_key(edited.document_id),
        v.documents[edited.document_id].current_manifest != edited.base,
        v.documents.contains_key(artefact.document_id),
        v.documents[artefact.document_id].current_manifest != artefact.prior_manifest,
    ensures
        documents::edit_result(v, edited, digest) == Err::<RecordView, ErrorView>(
            documents::outdated(edited.document_id),
        ),
        derived::derived_result(v, artefact, digest) == Err::<RecordView, ErrorView>(
            documents::outdated(artefact.document_id),
        ),
{
}

/// No document is ever live and archived at once: recording keeps them apart.
pub proof fn recording_keeps_apart(
    v: LibraryView,
    m: ManifestView,
    digest: Seq<char>,
    source: Source,
    now: Seq<char>,
)
    requires
        v.live_and_archived_apart(),
        versions::record_version_result(v, m, digest) is Ok,
    ensures
        versions::recorded(v, m, digest, source, now).live_and_archived_apart(),
{
    let after = versions::recorded(v, m, digest, source, now);
    assert forall|k: Seq<char>| after.documents.dom().contains(k) implies !after.archived.dom().contains(
        k,
    ) by {
        if k != m.document_id {
            assert(v.documents.dom().contains(k));
        }
    }
}

/// No document is ever live and archived at once: an edit, an archiving and a return keep them
/// apart.
pub proof fn edits_keep_apart(v: LibraryView, edited: EditedView, digest: Seq<char>, now: Seq<char>)
    requires
        v.live_and_archived_apart(),
        edited.manifest.document_id == edited.document_id,
        documents::edit_result(v, edited, digest) is Ok,
    ensures
        documents::metadata_recorded(v, edited, digest, now).live_and_archived_apart(),
{
    assert(v.documents.contains_key(edited.document_id) ==> v.documents.dom().contains(
        edited.document_id,
    ));
    let after = documents::metadata_recorded(v, edited, digest, now);
    assert forall|k: Seq<char>| after.documents.dom().contains(k) implies !after.archived.dom().contains(
        k,
    ) by {
        if k != edited.document_id {
            assert(v.documents.dom().contains(k));
        }
    }
}

/// No document is ever live and archived at once: an artefact keeps them apart.
pub proof fn artefacts_keep_apart(
    v: LibraryView,
    artefact: DerivedView,
    digest: Seq<char>,
    now: Seq<char>,
)
    requires
        v.live_and_archived_apart(),
        artefact.manifest.document_id == artefact.document_id,
        derived::derived_result(v, artefact, digest) is Ok,
    ensures
        derived::derived_recorded(v, artefact, digest, now).live_and_archived_apart(),
{
    let after = derived::derived_recorded(v, artefact, digest, now);
    assert(v.documents.dom().contains(artefact.document_id));
    assert forall|k: Seq<char>| after.documents.dom().contains(k) implies !after.archived.dom().contains(
        k,
    ) by {
        if k != artefact.document_id {
            assert(v.documents.dom().contains(k));
        }
    }
}

/// No document is ever live and archived at once: a purge and a revert keep them apart.
pub proof fn purge_and_revert_keep_apart(v: LibraryView, document_id: Seq<char>)
    requires
        v.live_and_archived_apart(),
    ensures
        archive::purged(v, document_id).live_and_archived_apart(),
        maintenance::reverted(v).live_and_archived_apart(),
{
    let p = archive::purged(v, document_id);
    assert forall|k: Seq<char>| p.documents.dom().contains(k) implies !p.archived.dom().contains(k) by {
        assert(v.documents.dom().contains(k));
    }
    let r = maintenance::reverted(v);
    assert forall|k: Seq<char>| r.documents.dom().contains(k) implies !r.archived.dom().contains(k) by {
        assert(v.documents.dom().contains(k));
    }
}

/// A document that is archived and brought back is live again, and its whole history is still
/// there.
pub proof fn archiving_is_undone_by_bringing_back(
    v: LibraryView,
    leaving: EditedView,
    first: Seq<char>,
    now: Seq<char>,
    returning: EditedView,
    second: Seq<char>,
    later: Seq<char>,
)
    requires
        leaving.post is Archive,
        returning.post is Unarchive,
        returning.document_id == leaving.document_id,
        leaving.manifest.document_id == leaving.document_id,
        returning.manifest.document_id == returning.document_id,
        v.live_and_archived_apart(),
        documents::edit_result(v, leaving, first) is Ok,
        documents::edit_result(
            documents::metadata_recorded(v, leaving, first, now),
            returning,
            second,
        ) is Ok,
    ensures
        ({
            let id = leaving.document_id;
            let away = documents::metadata_recorded(v, leaving, first, now);
            let back = documents::metadata_recorded(away, returning, second, later);
            &&& away.archived.contains_key(id)
            &&& !away.documents.contains_key(id)
            &&& away.archived[id].parent == leaving.post->original_parent
            &&& !back.archived.contains_key(id)
            &&& versions::is_current(back, id, second)
            &&& is_beginning(v.versions, away.versions)
            &&& is_beginning(v.versions, back.versions)
        }),
{
    let away = documents::metadata_recorded(v, leaving, first, now);
    let back = documents::metadata_recorded(away, returning, second, later);
    let id = leaving.document_id;
    assert(v.documents.dom().contains(id));
    assert(!v.archived.dom().contains(id));
    recording_only_appends(v, leaving.manifest, first, Source::Restored, now);
    recording_only_appends(away, returning.manifest, second, Source::Restored, later);
    assert(back.versions.take(v.versions.len() as int) =~= v.versions) by {
        assert(back.versions.take(away.versions.len() as int).take(v.versions.len() as int)
            =~= back.versions.take(v.versions.len() as int));
    }
}

/// A document comes back to the folder that it was in, if that folder is still there.
pub proof fn document_comes_back_home(v: LibraryView, document_id: Seq<char>, home: Seq<char>)
    requires
        v.archived.contains_key(document_id),
        v.archived[document_id].parent == Some(home),
        home.len() > 0,
        v.folders.contains_key(home),
        !v.folders[home].deleted_locally,
    ensures
        archive::home_of_archived(v, v.archived[document_id]) == Some(home),
{
}

/// A purge takes the versions of its document out of the log, and no others.
pub proof fn purge_takes_one_document(v: LibraryView, document_id: Seq<char>, row: VersionRowView)
    ensures
        archive::purged(v, document_id).versions.contains(row) == (v.versions.contains(row)
            && row.document_id != document_id),
        !archive::purged(v, document_id).archived.contains_key(document_id),
{
    archive::lemma_without_document(v.versions, document_id);
}

/// A document that the device has had is queued for deletion there when it is purged, and one
/// that it never had is not.
pub proof fn purge_reaches_the_device(v: LibraryView, document_id: Seq<char>)
    requires
        !v.deletion_queue.contains(document_id),
    ensures
        archive::purged(v, document_id).deletion_queue.contains(document_id) == (
        v.sync.contains_key(document_id) && v.sync[document_id].last_seen_manifest is Some),
{
}

/// Whatever is done to a library whose records agree with each other, they still agree: a version
/// is recorded, a document is edited, archived, brought back or given an artefact, an archived
/// document is purged, or all unpushed changes are undone.
pub proof fn changes_keep_agreement(
    v: LibraryView,
    m: ManifestView,
    source: Source,
    edited: EditedView,
    artefact: DerivedView,
    digest: Seq<char>,
    now: Seq<char>,
    document_id: Seq<char>,
)
    requires
        v.consistent(),
        edited.manifest.document_id == edited.document_id,
        artefact.manifest.document_id == artefact.document_id,
    ensures
        v.holds(digest, m) && versions::record_version_result(v, m, digest) is Ok
            ==> versions::recorded(v, m, digest, source, now).consistent(),
        v.holds(digest, edited.manifest) && documents::edit_result(v, edited, digest) is Ok
            ==> documents::metadata_recorded(v, edited, digest, now).consistent(),
        v.holds(digest, artefact.manifest) && derived::derived_result(v, artefact, digest) is Ok
            ==> derived::derived_recorded(v, artefact, digest, now).consistent(),
        v.archived.contains_key(document_id) ==> archive::purged(v, document_id).consistent(),
        maintenance::reverted(v).consistent(),
{
    if v.holds(digest, m) && versions::record_version_result(v, m, digest) is Ok {
        versions::lemma_recorded_agrees(v, m, digest, source, now);
    }
    if v.holds(digest, edited.manifest) && documents::edit_result(v, edited, digest) is Ok {
        documents::lemma_edit_agrees(v, edited, digest, now);
    }
    if v.holds(digest, artefact.manifest) && derived::derived_result(v, artefact, digest) is Ok {
        reveal(library::agree);
        assert(v.documents.dom().contains(artefact.document_id));
        versions::lemma_recorded_agrees(v, artefact.manifest, digest, Source::Imported, now);
    }
    if v.archived.contains_key(document_id) {
        archive::lemma_purged_agrees(v, document_id);
    }
    maintenance::lemma_reverted_agrees(v);
}

/// In a library whose records agree, an edit and an artefact yield a manifest of the document that
/// they were asked for.
pub proof fn edits_name_their_document(
    v: LibraryView,
    document_id: Seq<char>,
    patch: PatchView,
    post: PostActionView,
    request: EditRequestView,
    metadata: Seq<u8>,
    now_ms: i64,
    path: Seq<char>,
    bytes: Seq<u8>,
)
    requires
        v.consistent(),
        documents::answers_edit(v, document_id, patch, post, Ok(request)),
    ensures
        documents::applied(request, metadata, now_ms) matches Ok(edited) ==> edited.document_id
            == document_id && edited.manifest.document_id == document_id,
        derived::attached(v, document_id, path, bytes) matches Ok(artefact)
            ==> artefact.document_id == document_id && artefact.manifest.document_id
            == document_id,
{
    library::lemma_consistent(v);
}

proof fn lemma_garbage(v: LibraryView, files: Seq<BlobFile>, grace_nanos: u128, n: int, i: int)
    requires
        0 <= n <= files.len(),
        0 <= i < maintenance::garbage(v, files, grace_nanos, n).len(),
    ensures
        ({
            let at = maintenance::garbage(v, files, grace_nanos, n)[i];
            &&& 0 <= at < n
            &&& !maintenance::is_live_blob(v, files[at].name@)
            &&& maintenance::is_old_enough(files[at].age, grace_nanos)
        }),
    decreases n,
{
    if n > 0 && i < maintenance::garbage(v, files, grace_nanos, n - 1).len() {
        lemma_garbage(v, files, grace_nanos, n - 1, i);
    }
}

/// A collection deletes nothing that any version of the log needs: neither its manifest nor any
/// of its files.
pub proof fn collection_spares_every_version(
    v: LibraryView,
    files: Seq<BlobFile>,
    grace_nanos: u128,
    i: int,
    version: int,
    m: ManifestView,
    file: int,
)
    requires
        v.references_fit(),
        0 <= i < maintenance::garbage(v, files, grace_nanos, files.len() as int).len(),
        0 <= version < v.versions.len(),
        v.manifest(v.versions[version].manifest_hash) == Ok::<ManifestView, ErrorView>(m),
    ensures
        ({
            let at = maintenance::garbage(v, files, grace_nanos, files.len() as int)[i];
            &&& files[at].name@ != v.versions[version].manifest_hash
            &&& 0 <= file < m.files.len() ==> files[at].name@ != m.files[file].sha256
        }),
{
    lemma_garbage(v, files, grace_nanos, files.len() as int, i);
    let digest = v.versions[version].manifest_hash;
    assert(versions::manifest_refs(m.files, digest).subset_of(v.blob_refs)) by {
        reveal(library::refs_fit);
        assert(library::decoded(v.manifests, v.versions[version].manifest_hash) == Some(m));
    }
    assert(versions::manifest_refs(m.files, digest).contains((digest, digest)));
    assert(v.blob_refs.contains((digest, digest)));
    assert(maintenance::is_live_blob(v, digest));
    if 0 <= file < m.files.len() {
        let sha = m.files[file].sha256;
        assert(versions::manifest_refs(m.files, digest).contains((sha, digest)));
        assert(v.blob_refs.contains((sha, digest)));
        assert(maintenance::is_live_blob(v, sha));
    }
}

/// Once a document is purged, a blob that only its versions needed can be collected; a blob that
/// another document needs cannot.
pub proof fn purge_releases_blobs(v: LibraryView, document_id: Seq<char>, digest: Seq<char>)
    ensures
        maintenance::is_live_blob(archive::purged(v, document_id), digest) == (exists|i: int|
            0 <= i < v.versions.len() && (#[trigger] v.versions[i]).document_id != document_id
                && v.blob_refs.contains((digest, v.versions[i].manifest_hash))),
{
    let p = archive::purged(v, document_id);
    archive::lemma_without_document(v.versions, document_id);
    if maintenance::is_live_blob(p, digest) {
        let i = choose|i: int|
            0 <= i < p.versions.len() && p.blob_refs.contains(
                (digest, (#[trigger] p.versions[i]).manifest_hash),
            );
        assert(p.versions.contains(p.versions[i]));
        let j = choose|j: int| 0 <= j < v.versions.len() && v.versions[j] == p.versions[i];
        assert(v.versions[j].document_id != document_id);
    }
    if exists|i: int|
        0 <= i < v.versions.len() && (#[trigger] v.versions[i]).document_id != document_id
            && v.blob_refs.contains((digest, v.versions[i].manifest_hash)) {
        let i = choose|i: int|
            0 <= i < v.versions.len() && (#[trigger] v.versions[i]).document_id != document_id
                && v.blob_refs.contains((digest, v.versions[i].manifest_hash));
        assert(v.versions.contains(v.versions[i]));
        assert(p.versions.contains(v.versions[i]));
        let j = choose|j: int| 0 <= j < p.versions.len() && p.versions[j] == v.versions[i];
        assert(p.blob_refs.contains((digest, p.versions[j].manifest_hash)));
    }
}

/// A second revert finds nothing to undo.
pub proof fn reverting_twice_is_reverting_once(v: LibraryView)
    ensures
        maintenance::reverted(maintenance::reverted(v)) == maintenance::reverted(v),
        forall|k: Seq<char>|
            maintenance::reverted(v).documents.contains_key(k)
                ==> #[trigger] maintenance::rollback_target(maintenance::reverted(v), k) is None,
        forall|k: Seq<char>| #[trigger]
            maintenance::reverted(v).folders.contains_key(k) ==> !maintenance::is_unsettled(
                maintenance::reverted(v).folders[k],
            ),
{
    let once = maintenance::reverted(v);
    let twice = maintenance::reverted(once);
    assert forall|k: Seq<char>|
        once.documents.contains_key(k) implies #[trigger] maintenance::rollback_target(once, k) is None by {}
    assert(twice.documents =~= once.documents);
    assert(twice.folders =~= once.folders);
}

/// A revert takes no version from the log and forgets nothing of the device or the archive; and a
/// document that the device has never seen stays as it is.
pub proof fn revert_keeps_history_and_imports(v: LibraryView, document_id: Seq<char>)
    ensures
        maintenance::reverted(v).versions == v.versions,
        maintenance::reverted(v).sync == v.sync,
        maintenance::reverted(v).archived == v.archived,
        maintenance::reverted(v).documents.dom() == v.documents.dom(),
        v.documents.contains_key(document_id) && (!v.sync.contains_key(document_id)
            || v.sync[document_id].last_seen_manifest is None)
            ==> maintenance::reverted(v).documents[document_id] == v.documents[document_id],
{
    assert(maintenance::reverted(v).documents.dom() =~= v.documents.dom());
}

/// After a revert, a live document whose last synced version is in the log is one that the device
/// has.
pub proof fn revert_agrees_with_the_device(v: LibraryView, document_id: Seq<char>)
    requires
        v.documents.contains_key(document_id),
        maintenance::rollback_target(v, document_id) is Some,
    ensures
        !documents::is_unpushed(maintenance::reverted(v), document_id),
{
}

/// A recorded artefact does not make a document that the device has look changed.
pub proof fn artefact_keeps_a_synced_document_synced(
    v: LibraryView,
    artefact: DerivedView,
    digest: Seq<char>,
    now: Seq<char>,
)
    requires
        artefact.manifest.document_id == artefact.document_id,
        derived::device_has(v, artefact.document_id, artefact.prior_manifest),
    ensures
        !documents::is_unpushed(
            derived::derived_recorded(v, artefact, digest, now),
            artefact.document_id,
        ),
{
}

/// A recorded artefact does not make a document with unpushed changes look as if the device had
/// them.
pub proof fn artefact_keeps_an_unpushed_document_unpushed(
    v: LibraryView,
    artefact: DerivedView,
    digest: Seq<char>,
    now: Seq<char>,
)
    requires
        artefact.manifest.document_id == artefact.document_id,
        !derived::device_has(v, artefact.document_id, artefact.prior_manifest),
        !derived::device_has(v, artefact.document_id, digest),
    ensures
        documents::is_unpushed(
            derived::derived_recorded(v, artefact, digest, now),
            artefact.document_id,
        ),
{
}

/// An artefact that has been attached is found again under its path.
pub proof fn attached_artefact_is_found(files: Seq<FileView>, path: Seq<char>, bytes: Seq<u8>)
    ensures
        ({
            let after = derived::with_file(files, derived::derived_file(path, bytes));
            exists|i: int| #[trigger]
                derived::is_artefact(after, path, i) && after[i].sha256 == hash::digest_hex(bytes)
        }),
{
    let file = derived::derived_file(path, bytes);
    let after = derived::with_file(files, file);
    let i = if exists|i: int| derived::is_first_at(files, file.path, i) {
        choose|i: int| derived::is_first_at(files, file.path, i)
    } else {
        files.len() as int
    };
    assert(file.path == path);
    assert(i < files.len() ==> derived::is_first_at(files, file.path, i));
    assert forall|j: int| 0 <= j < i implies !((#[trigger] after[j]).derived && after[j].path
        == path) by {
        assert(after[j] == files[j]);
        if files[j].path == path {
            lemma_some_first(files, path, j);
        }
    }
    assert(after[i] == file);
    assert(derived::is_artefact(after, path, i));
}

proof fn lemma_some_first(files: Seq<FileView>, path: Seq<char>, j: int)
    requires
        0 <= j < files.len(),
        files[j].path == path,
    ensures
        exists|i: int| derived::is_first_at(files, path, i),
    decreases j,
{
    if exists|k: int| 0 <= k < j && (#[trigger] files[k]).path == path {
        let k = choose|k: int| 0 <= k < j && (#[trigger] files[k]).path == path;
        lemma_some_first(files, path, k);
    } else {
        assert(derived::is_first_at(files, path, j));
    }
}

/// What the device shows of a folder does not undo a rename that it has yet to hear of, nor a
/// deletion, and leaves the folder at its position.
pub proof fn mirroring_keeps_local_changes(
    all: Map<Seq<char>, FolderRowView>,
    folder_id: Seq<char>,
    parent: Option<Seq<char>>,
    visible_name: Seq<char>,
    metadata_json: Seq<char>,
    position: SortIndex,
)
    requires
        all.contains_key(folder_id),
    ensures
        ({
            let row = folders::mirrored(
                all,
                folder_id,
                parent,
                visible_name,
                metadata_json,
                position,
            );
            &&& row.sort_index == all[folder_id].sort_index
            &&& row.deleted_locally == all[folder_id].deleted_locally
            &&& row.pending_push == all[folder_id].pending_push
            &&& all[folder_id].pending_push ==> row.visible_name == all[folder_id].visible_name
        }),
{
}

/// Moving a folder among its siblings is nothing for the device to hear of.
pub proof fn reordering_alone_queues_no_push(
    row: FolderRowView,
    position: SortIndex,
    now_ms: i64,
)
    ensures
        folders::replaced(row, row.parent, position, now_ms) == (FolderRowView {
            sort_index: position,
            ..row
        }),
{
}

/// A folder that was deleted while its upload was under way stays deleted.
pub proof fn late_upload_does_not_undo_a_deletion(
    all: Map<Seq<char>, FolderRowView>,
    folder_id: Seq<char>,
)
    requires
        all.contains_key(folder_id),
        all[folder_id].deleted_locally,
    ensures
        folders::settled(all, folder_id, FolderPushKind::Upsert) == all,
{
}

/// A push that has reached the device is no longer pending, and leaves the other folders as they
/// are.
pub proof fn pushed_folder_is_settled(
    all: Map<Seq<char>, FolderRowView>,
    folder_id: Seq<char>,
    other: Seq<char>,
)
    requires
        all.contains_key(folder_id),
        !all[folder_id].deleted_locally,
        other != folder_id,
    ensures
        ({
            let after = folders::settled(all, folder_id, FolderPushKind::Upsert);
            &&& !maintenance::is_unsettled(after[folder_id])
            &&& after.contains_key(other) == all.contains_key(other)
            &&& after[other] == all[other]
        }),
        !folders::settled(all, folder_id, FolderPushKind::Delete).contains_key(folder_id),
{
}

/// Deleting a folder loses none of the folders in it: they are all still there, and all that is
/// not a folder is untouched.
pub proof fn lifting_loses_no_folder(
    v: LibraryView,
    children: Seq<(Seq<char>, SortIndex)>,
    new_parent: Option<Seq<char>>,
    now_ms: i64,
)
    ensures
        ({
            let after = folders::lifted(v, children, new_parent, now_ms).0;
            &&& after.folders.dom() == v.folders.dom()
            &&& after == (LibraryView { folders: after.folders, ..v })
        }),
    decreases children.len(),
{
    if children.len() > 0 {
        lifting_loses_no_folder(v, children.drop_last(), new_parent, now_ms);
        let before = folders::lifted(v, children.drop_last(), new_parent, now_ms).0;
        let after = folders::lifted(v, children, new_parent, now_ms).0;
        assert(after.folders.dom() =~= before.folders.dom());
    }
}

/// Whether the way up from a folder ends within so many steps.
pub open spec fn way_ends(all: Map<Seq<char>, FolderRowView>, id: Seq<char>, steps: nat) -> bool
    decreases steps,
{
    match folders::parent_of(all, id) {
        None => true,
        Some(p) => steps > 0 && way_ends(all, p, (steps - 1) as nat),
    }
}

/// Whether the folders form a tree: the way up from every folder ends.
pub open spec fn is_tree(all: Map<Seq<char>, FolderRowView>) -> bool {
    forall|id: Seq<char>| #[trigger] all.contains_key(id) ==> exists|n: nat| way_ends(all, id, n)
}

/// The folder so many steps up.
pub open spec fn up(all: Map<Seq<char>, FolderRowView>, id: Seq<char>, steps: nat) -> Option<Seq<char>>
    decreases steps,
{
    if steps == 0 {
        Some(id)
    } else {
        match folders::parent_of(all, id) {
            None => None,
            Some(p) => up(all, p, (steps - 1) as nat),
        }
    }
}

proof fn lemma_way_longer(all: Map<Seq<char>, FolderRowView>, id: Seq<char>, n: nat, more: nat)
    requires
        way_ends(all, id, n),
        n <= more,
    ensures
        way_ends(all, id, more),
    decreases n,
{
    if let Some(p) = folders::parent_of(all, id) {
        lemma_way_longer(all, p, (n - 1) as nat, (more - 1) as nat);
    }
}

/// The way from a folder on the way up is shorter by as many steps as it is up.
proof fn lemma_way_above(
    all: Map<Seq<char>, FolderRowView>,
    id: Seq<char>,
    n: nat,
    steps: nat,
    x: Seq<char>,
)
    requires
        way_ends(all, id, n),
        up(all, id, steps) == Some(x),
    ensures
        steps <= n,
        way_ends(all, x, (n - steps) as nat),
    decreases steps,
{
    if steps > 0 {
        let p = folders::parent_of(all, id)->0;
        lemma_way_above(all, p, (n - 1) as nat, (steps - 1) as nat, x);
    }
}

proof fn lemma_way_not_shorter(
    all: Map<Seq<char>, FolderRowView>,
    id: Seq<char>,
    n: nat,
    steps: nat,
    x: Seq<char>,
)
    requires
        up(all, id, steps) == Some(x),
        steps <= n,
        way_ends(all, x, (n - steps) as nat),
    ensures
        way_ends(all, id, n),
    decreases steps,
{
    if steps > 0 {
        let p = folders::parent_of(all, id)->0;
        lemma_way_not_shorter(all, p, (n - 1) as nat, (steps - 1) as nat, x);
    }
}

/// The fewest steps within which the way ends.
proof fn lemma_fewest(all: Map<Seq<char>, FolderRowView>, id: Seq<char>, n: nat) -> (k: nat)
    requires
        way_ends(all, id, n),
    ensures
        k <= n,
        way_ends(all, id, k),
        k > 0 ==> !way_ends(all, id, (k - 1) as nat),
    decreases n,
{
    if n > 0 && way_ends(all, id, (n - 1) as nat) {
        lemma_fewest(all, id, (n - 1) as nat)
    } else {
        n
    }
}

/// On a way that ends, no folder comes twice.
proof fn lemma_way_has_no_loop(
    all: Map<Seq<char>, FolderRowView>,
    id: Seq<char>,
    n: nat,
    i: nat,
    j: nat,
)
    requires
        way_ends(all, id, n),
        i < j,
        up(all, id, i) is Some,
        up(all, id, j) is Some,
    ensures
        up(all, id, i) != up(all, id, j),
{
    let k = lemma_fewest(all, id, n);
    let x = up(all, id, i)->0;
    let y = up(all, id, j)->0;
    lemma_way_above(all, id, k, i, x);
    lemma_way_above(all, id, k, j, y);
    if x == y {
        lemma_way_longer(all, x, (k - j) as nat, (k - 1 - i) as nat);
        lemma_way_not_shorter(all, id, (k - 1) as nat, i, x);
    }
}

proof fn lemma_up_defined(all: Map<Seq<char>, FolderRowView>, id: Seq<char>, steps: nat, fewer: nat)
    requires
        up(all, id, steps) is Some,
        fewer < steps,
    ensures
        up(all, id, fewer) is Some,
        all.contains_key(up(all, id, fewer)->0),
    decreases steps,
{
    let p = folders::parent_of(all, id)->0;
    if fewer > 0 {
        lemma_up_defined(all, p, (steps - 1) as nat, (fewer - 1) as nat);
    }
}

proof fn lemma_climb_finds(
    all: Map<Seq<char>, FolderRowView>,
    start: Seq<char>,
    target: Seq<char>,
    at: nat,
    steps: nat,
)
    requires
        up(all, start, at) == Some(target),
        at < steps,
    ensures
        folders::climb_meets(all, start, target, steps),
    decreases at,
{
    if at > 0 {
        let p = folders::parent_of(all, start)->0;
        lemma_climb_finds(all, p, target, (at - 1) as nat, (steps - 1) as nat);
    }
}

/// A folder on a way that ends is met within as many steps as there are folders.
proof fn lemma_met_early(
    all: Map<Seq<char>, FolderRowView>,
    start: Seq<char>,
    n: nat,
    target: Seq<char>,
    at: nat,
)
    requires
        all.dom().finite(),
        way_ends(all, start, n),
        up(all, start, at) == Some(target),
        all.contains_key(target),
    ensures
        folders::climb_meets(all, start, target, all.dom().len()),
{
    let way = Seq::new((at + 1) as nat, |i: int| up(all, start, i as nat)->0);
    assert forall|i: int| 0 <= i < way.len() implies all.dom().contains(#[trigger] way[i]) && up(
        all,
        start,
        i as nat,
    ) is Some by {
        if i < at {
            lemma_up_defined(all, start, at, i as nat);
        }
    }
    assert(way.no_duplicates()) by {
        assert forall|i: int, j: int| 0 <= i < way.len() && 0 <= j < way.len() && i != j implies way[i]
            != way[j] by {
            assert(all.dom().contains(way[i]) && all.dom().contains(way[j]));
            if i < j {
                lemma_way_has_no_loop(all, start, n, i as nat, j as nat);
            } else {
                lemma_way_has_no_loop(all, start, n, j as nat, i as nat);
            }
        }
    }
    way.unique_seq_to_set();
    assert(way.to_set().subset_of(all.dom())) by {
        assert forall|x: Seq<char>| way.to_set().contains(x) implies all.dom().contains(x) by {
            let i = choose|i: int| 0 <= i < way.len() && way[i] == x;
            assert(all.dom().contains(way[i]));
        }
    }
    vstd::set_lib::lemma_len_subset(way.to_set(), all.dom());
    lemma_climb_finds(all, start, target, at, all.dom().len());
}

/// A way that does not meet a changed folder stays as it is.
proof fn lemma_way_unchanged(
    all: Map<Seq<char>, FolderRowView>,
    id: Seq<char>,
    row: FolderRowView,
    start: Seq<char>,
    n: nat,
)
    requires
        way_ends(all, start, n),
        forall|i: nat| #[trigger] up(all, start, i) != Some(id),
    ensures
        way_ends(all.insert(id, row), start, n),
    decreases n,
{
    assert(up(all, start, 0) == Some(start));
    if let Some(p) = folders::parent_of(all, start) {
        assert forall|i: nat| #[trigger] up(all, p, i) != Some(id) by {
            assert(up(all, start, (i + 1) as nat) == up(all, p, i));
        }
        lemma_way_unchanged(all, id, row, p, (n - 1) as nat);
        assert(folders::parent_of(all.insert(id, row), start) == Some(p));
    } else {
        assert(folders::parent_of(all.insert(id, row), start) is None);
    }
}

/// A way over a changed folder ends if the way from the changed folder does.
proof fn lemma_way_rerouted(
    all: Map<Seq<char>, FolderRowView>,
    id: Seq<char>,
    row: FolderRowView,
    start: Seq<char>,
    n: nat,
    m: nat,
)
    requires
        way_ends(all, start, n),
        way_ends(all.insert(id, row), id, m),
    ensures
        way_ends(all.insert(id, row), start, n + m),
    decreases n,
{
    let after = all.insert(id, row);
    if start == id {
        lemma_way_longer(after, id, m, n + m);
    } else {
        assert(folders::parent_of(after, start) == folders::parent_of(all, start));
        if let Some(p) = folders::parent_of(all, start) {
            lemma_way_rerouted(all, id, row, p, (n - 1) as nat, m);
        }
    }
}

/// Moving a folder keeps the folders a tree: a folder never comes to lie in itself, at any depth.
pub proof fn moving_keeps_the_tree(
    v: LibraryView,
    folder_id: Seq<char>,
    new_parent: Option<Seq<char>>,
    position: SortIndex,
    now_ms: i64,
)
    requires
        v.folders.dom().finite(),
        is_tree(v.folders),
        folders::reorder_error(v, folder_id, new_parent, position) is None,
    ensures
        is_tree(folders::reordered(v, folder_id, new_parent, position, now_ms).folders),
{
    let all = v.folders;
    let row = folders::replaced(all[folder_id], new_parent, position, now_ms);
    let after = all.insert(folder_id, row);
    let m: nat = match folders::nonempty(new_parent) {
        None => 0,
        Some(p) => {
            let n: nat = if all.contains_key(p) {
                choose|n: nat| way_ends(all, p, n)
            } else {
                0
            };
            assert(way_ends(all, p, n));
            assert forall|i: nat| #[trigger] up(all, p, i) != Some(folder_id) by {
                if up(all, p, i) == Some(folder_id) {
                    lemma_met_early(all, p, n, folder_id, i);
                }
            }
            lemma_way_unchanged(all, folder_id, row, p, n);
            n + 1
        },
    };
    assert(way_ends(after, folder_id, m));
    assert forall|id: Seq<char>| #[trigger] after.contains_key(id) implies exists|n: nat|
        way_ends(after, id, n) by {
        if id != folder_id {
            let n = choose|n: nat| way_ends(all, id, n);
            assert(all.contains_key(id));
            lemma_way_rerouted(all, folder_id, row, id, n, m);
        }
    }
}

proof fn lemma_climb_is_up(
    all: Map<Seq<char>, FolderRowView>,
    start: Seq<char>,
    target: Seq<char>,
    steps: nat,
) -> (at: nat)
    requires
        folders::climb_meets(all, start, target, steps),
    ensures
        up(all, start, at) == Some(target),
    decreases steps,
{
    if start == target {
        0
    } else {
        let p = folders::parent_of(all, start)->0;
        let at = lemma_climb_is_up(all, p, target, (steps - 1) as nat);
        at + 1
    }
}

/// A folder may be moved up to where its parent is, unless it lies above that parent.
pub proof fn folder_may_move_up(
    v: LibraryView,
    folder_id: Seq<char>,
    parent: Seq<char>,
    position: SortIndex,
)
    requires
        v.folders.contains_key(folder_id),
        folders::parent_of(v.folders, folder_id) == Some(parent),
        forall|n: nat| #[trigger] up(v.folders, parent, n) != Some(folder_id),
        rows::is_finite(position),
    ensures
        folders::reorder_error(
            v,
            folder_id,
            folders::parent_of(v.folders, parent),
            position,
        ) is None,
{
    let all = v.folders;
    if let Some(h) = folders::parent_of(all, parent) {
        assert forall|at: nat| #[trigger] up(all, h, at) != Some(folder_id) by {
            assert(up(all, parent, (at + 1) as nat) == up(all, h, at));
        }
        assert(up(all, h, 0) == Some(h));
        if folders::climb_meets(all, h, folder_id, all.dom().len()) {
            let at = lemma_climb_is_up(all, h, folder_id, all.dom().len());
        }
    }
}

/// In a tree no folder lies above its parent.
pub proof fn no_folder_lies_above_its_parent(
    all: Map<Seq<char>, FolderRowView>,
    folder_id: Seq<char>,
    parent: Seq<char>,
    n: nat,
)
    requires
        is_tree(all),
        all.contains_key(folder_id),
        folders::parent_of(all, folder_id) == Some(parent),
    ensures
        up(all, parent, n) != Some(folder_id),
{
    let m = choose|m: nat| way_ends(all, folder_id, m);
    assert(way_ends(all, folder_id, m));
    assert(up(all, folder_id, 0) == Some(folder_id));
    assert(up(all, folder_id, (n + 1) as nat) == up(all, parent, n));
    if up(all, parent, n) == Some(folder_id) {
        lemma_way_has_no_loop(all, folder_id, m, 0, (n + 1) as nat);
    }
}

/// A folder is never moved into itself, nor into a folder that lies in it.
pub proof fn folder_is_not_moved_into_itself(
    v: LibraryView,
    folder_id: Seq<char>,
    new_parent: Seq<char>,
    depth: nat,
    position: SortIndex,
)
    requires
        v.folders.dom().finite(),
        is_tree(v.folders),
        v.folders.contains_key(folder_id),
        v.folders.contains_key(new_parent),
        rows::is_finite(position),
        lies_in(v.folders, new_parent, folder_id, depth),
    ensures
        folders::reorder_error(v, folder_id, Some(new_parent), position) is Some,
{
    let n = choose|n: nat| way_ends(v.folders, new_parent, n);
    lemma_lies_in(v.folders, new_parent, folder_id, depth);
    lemma_met_early(v.folders, new_parent, n, folder_id, depth);
}

/// Whether a folder lies so many folders deep in another; no folders deep, it is that other.
pub open spec fn lies_in(
    all: Map<Seq<char>, FolderRowView>,
    id: Seq<char>,
    outer: Seq<char>,
    depth: nat,
) -> bool
    decreases depth,
{
    if depth == 0 {
        id == outer
    } else {
        match folders::parent_of(all, id) {
            None => false,
            Some(p) => lies_in(all, p, outer, (depth - 1) as nat),
        }
    }
}

proof fn lemma_lies_in(
    all: Map<Seq<char>, FolderRowView>,
    id: Seq<char>,
    outer: Seq<char>,
    depth: nat,
)
    requires
        lies_in(all, id, outer, depth),
    ensures
        up(all, id, depth) == Some(outer),
    decreases depth,
{
    if depth > 0 {
        lemma_lies_in(all, folders::parent_of(all, id)->0, outer, (depth - 1) as nat);
    }
}

/// A note changes nothing but the note of its version.
pub proof fn note_changes_only_the_note(
    rows: Seq<VersionRowView>,
    version_id: i64,
    note: Option<Seq<char>>,
    i: int,
)
    requires
        0 <= i < rows.len(),
    ensures
        versions::noted(rows, version_id, note).len() == rows.len(),
        versions::noted(rows, version_id, note)[i] == (VersionRowView {
            note: if rows[i].id == version_id {
                note
            } else {
                rows[i].note
            },
            ..rows[i]
        }),
{
}

} // verus!
