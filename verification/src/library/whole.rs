//! What the operations of the library come to as a whole.

use vstd::prelude::*;

use crate::blob;
use crate::blob::PutOutcome;
use crate::error::ErrorView;
use crate::hash;
use crate::json;
use crate::library;
use crate::library::archive;
use crate::library::archive::UnarchivingView;
use crate::library::derived;
use crate::library::derived::DerivedView;
use crate::library::documents;
use crate::library::documents::EditedView;
use crate::library::folders;
use crate::library::import;
use crate::library::laws;
use crate::library::maintenance;
use crate::library::maintenance::BlobFile;
use crate::library::rows;
use crate::library::rows::{ArchiveRow, ArchiveRowView, FolderRow, FolderRowView, SortIndex};
use crate::library::rows::VersionRowView;
use crate::library::types;
use crate::library::types::{ArchivedView, FolderEntryView, Source, SummaryView, VersionEntryView};
use crate::library::versions;
use crate::library::LibraryView;
use crate::manifest;
use crate::manifest::ManifestView;
use crate::paths;
use crate::table;
use crate::table::{Ranked, Row};
use crate::text;

verus! {

/// Whether the records are in order, as those of a library are. See
/// [`library::Library::records_are_valid`].
pub open spec fn is_valid(v: LibraryView) -> bool {
    &&& laws::numbers_in_order(v)
    &&& library::manifests_fit(v.manifests)
    &&& table::lists_keys(v.documents, table::sorted_keys(v.documents))
    &&& table::lists_keys(v.folders, table::sorted_keys(v.folders))
    &&& v.folders.dom().finite()
    &&& folders_under_own_id(v.folders)
    &&& table::lists_rows::<FolderRow>(v.folders, table::ranked::<FolderRow>(v.folders))
    &&& archived_under_own_id(v.archived)
    &&& table::lists_rows::<ArchiveRow>(v.archived, table::ranked::<ArchiveRow>(v.archived))
}

/// Whether every archived document is filed under its own identifier.
pub open spec fn archived_under_own_id(all: Map<Seq<char>, ArchiveRowView>) -> bool {
    forall|k: Seq<char>| #[trigger] all.contains_key(k) ==> all[k].document_id == k
}

/// Whether every folder is filed under its own identifier.
pub open spec fn folders_under_own_id(all: Map<Seq<char>, FolderRowView>) -> bool {
    forall|k: Seq<char>| #[trigger] all.contains_key(k) ==> all[k].folder_id == k
}

/// Whether every live document has a current manifest that can be read.
pub open spec fn documents_intact(v: LibraryView) -> bool {
    forall|k: Seq<char>| #[trigger]
        v.documents.contains_key(k) ==> hash::is_hex_digest(v.documents[k].current_manifest)
            && v.manifest(v.documents[k].current_manifest) is Ok
}

/// An export never leaves the directory it was sent to: each of its targets lies below it.
pub proof fn export_stays_in_its_directory(v: LibraryView, version_id: i64, dest: Seq<char>)
    ensures
        maintenance::export_of(v, version_id, dest) matches Ok(files) ==> forall|i: int|
            0 <= i < files.len() ==> paths::stays_below((#[trigger] files[i]).target, dest),
{
    if let Ok(files) = maintenance::export_of(v, version_id, dest) {
        let m = v.manifest(v.version(version_id)->0.manifest_hash)->Ok_0;
        manifest::lemma_first_stray(m.files);
        assert forall|i: int| 0 <= i < files.len() implies paths::stays_below(
            (#[trigger] files[i]).target,
            dest,
        ) by {
            assert(paths::leads_inside(m.files[i].path));
            paths::joined_path_stays_below(dest, m.files[i].path);
        }
    }
}

/// What becomes of blobs that are put one after the other into a store that has `present`.
pub open spec fn put_in_turn(present: Set<Seq<char>>, digests: Seq<Seq<char>>) -> Seq<
    (Seq<char>, PutOutcome),
> {
    Seq::new(
        digests.len(),
        |i: int|
            (digests[i], blob::put_outcome(present.union(digests.take(i).to_set()), digests[i])),
    )
}

proof fn lemma_fresh(present: Set<Seq<char>>, digests: Seq<Seq<char>>)
    ensures
        import::fresh_digests(put_in_turn(present, digests)).to_set()
            == digests.to_set().difference(present),
    decreases digests.len(),
{
    let puts = put_in_turn(present, digests);
    if digests.len() == 0 {
        assert(import::fresh_digests(puts).to_set() =~= digests.to_set().difference(present));
    } else {
        let init = digests.drop_last();
        let last = digests.last();
        lemma_fresh(present, init);
        assert forall|i: int| 0 <= i < init.len() implies puts.drop_last()[i] == put_in_turn(
            present,
            init,
        )[i] by {
            assert(digests.take(i) =~= init.take(i));
        }
        assert(puts.drop_last() =~= put_in_turn(present, init));
        assert(digests.take(digests.len() - 1) =~= init);
        library::lemma_push_to_set(init, last);
        assert(init.push(last) =~= digests);
        library::lemma_push_to_set(import::fresh_digests(put_in_turn(present, init)), last);
        assert(import::fresh_digests(puts).to_set() =~= digests.to_set().difference(present));
    }
}

/// An import that fails leaves nothing behind: once the blobs that were new are taken back, the
/// blobs on disk are those from before the first of them was put.
pub proof fn failed_import_leaves_nothing_behind(
    before: Set<Seq<char>>,
    body: Seq<char>,
    metadata: Seq<char>,
    content: Seq<char>,
    digest: Seq<char>,
)
    ensures
        before.insert(body).insert(metadata).insert(content).insert(digest).difference(
            import::fresh_digests(
                put_in_turn(before, seq![body, metadata, content, digest]),
            ).to_set(),
        ) == before,
{
    let digests = seq![body, metadata, content, digest];
    lemma_fresh(before, digests);
    assert(digests[0] == body && digests[1] == metadata && digests[2] == content && digests[3]
        == digest);
    assert forall|d: Seq<char>| #[trigger] digests.to_set().contains(d) == (d == body || d
        == metadata || d == content || d == digest) by {
        assert(digests.contains(body) && digests.contains(metadata) && digests.contains(content)
            && digests.contains(digest));
    }
    assert(before.insert(body).insert(metadata).insert(content).insert(digest).difference(
        digests.to_set().difference(before),
    ) =~= before);
}

/// The manifest that the device was last seen with.
pub open spec fn last_seen(v: LibraryView, document_id: Seq<char>) -> Option<Seq<char>> {
    if v.sync.contains_key(document_id) {
        v.sync[document_id].last_seen_manifest
    } else {
        None
    }
}

proof fn lemma_same_history(
    v: LibraryView,
    w: LibraryView,
    log: Seq<VersionRowView>,
    document_id: Seq<char>,
)
    requires
        v.manifests == w.manifests,
        v.db_path == w.db_path,
    ensures
        versions::history(v, log, document_id) == versions::history(w, log, document_id),
    decreases log.len(),
{
    if log.len() > 0 {
        lemma_same_history(v, w, log.drop_last(), document_id);
    }
}

/// Going back to a version makes its manifest the current one again. If it was current already,
/// nothing changes; otherwise the history grows by one entry that follows the version that was
/// current, and loses nothing. What the device was last seen with stays as it was.
pub proof fn restoring_goes_back(
    v: LibraryView,
    version_id: i64,
    now: Seq<char>,
    entry: VersionEntryView,
)
    requires
        is_valid(v),
        versions::version_lookup(v, version_id) == Ok::<VersionEntryView, ErrorView>(entry),
        v.documents.contains_key(entry.document_id),
        !v.archived.contains_key(entry.document_id),
        v.manifest(entry.manifest_hash) matches Ok(m) && m.document_id == entry.document_id,
        versions::is_current(v, entry.document_id, entry.manifest_hash) || v.next_version_id
            <= i64::MAX,
    ensures
        ({
            let id = entry.document_id;
            let cur = v.documents[id].current_version_id;
            let after = versions::restored(v, version_id, now);
            let history = versions::history(v, v.versions, id);
            &&& versions::restore_result(v, version_id) matches Ok(o) && o.manifest_hash
                == entry.manifest_hash && versions::is_current(after, id, entry.manifest_hash)
                && last_seen(after, id) == last_seen(v, id) && if versions::is_current(
                v,
                id,
                entry.manifest_hash,
            ) {
                o.unchanged && o.version_id == cur && after == v
            } else {
                !o.unchanged && match history {
                    Ok(entries) => versions::history(after, after.versions, id) matches Ok(longer)
                        && longer.len() == entries.len() + 1 && longer.drop_last() == entries
                        && longer.last().id == o.version_id && longer.last().source
                        == Source::Restored && longer.last().parent_version_id == Some(cur)
                        && longer.last().manifest_hash == entry.manifest_hash,
                    Err(e) => versions::history(after, after.versions, id) == Err::<
                        Seq<VersionEntryView>,
                        ErrorView,
                    >(e),
                }
            }
        }),
{
    let id = entry.document_id;
    let after = versions::restored(v, version_id, now);
    let row = v.version(version_id)->0;
    assert(row.document_id == id && row.manifest_hash == entry.manifest_hash);
    if !versions::is_current(v, id, entry.manifest_hash) {
        let m = v.manifest(row.manifest_hash)->Ok_0;
        let new = versions::new_version(v, m, row.manifest_hash, Source::Restored, now);
        assert(after.versions == v.versions.push(new));
        assert(after.versions.drop_last() =~= v.versions);
        lemma_same_history(v, after, v.versions, id);
        types::source_survives_the_log(Source::Restored);
        if let Ok(entries) = versions::history(v, v.versions, id) {
            let longer = versions::history(after, after.versions, id)->Ok_0;
            assert(longer.drop_last() =~= entries);
        }
    }
}

proof fn lemma_summaries(v: LibraryView, ids: Seq<Seq<char>>)
    requires
        forall|i: int|
            0 <= i < ids.len() ==> documents::is_listed(v, #[trigger] ids[i])
                && documents::live_summary(v, ids[i]) is Ok,
    ensures
        documents::summaries(v, ids) matches Ok(list) && list.len() == ids.len() && forall|i: int|
            0 <= i < ids.len() ==> documents::live_summary(v, ids[i]) == Ok::<
                SummaryView,
                ErrorView,
            >(#[trigger] list[i]),
    decreases ids.len(),
{
    if ids.len() > 0 {
        let init = ids.drop_last();
        assert forall|i: int| 0 <= i < init.len() implies documents::is_listed(
            v,
            #[trigger] init[i],
        ) && documents::live_summary(v, init[i]) is Ok by {
            assert(init[i] == ids[i]);
        }
        lemma_summaries(v, init);
        assert(ids[ids.len() - 1] == ids.last());
        let list = documents::summaries(v, ids)->Ok_0;
        assert forall|i: int| 0 <= i < ids.len() implies documents::live_summary(v, ids[i]) == Ok::<
            SummaryView,
            ErrorView,
        >(#[trigger] list[i]) by {
            if i < init.len() {
                assert(init[i] == ids[i]);
                assert(list[i] == documents::summaries(v, init)->Ok_0[i]);
            }
        }
    }
}

/// Whether a summary tells what the library knows of a live document.
pub open spec fn tells_of(v: LibraryView, s: SummaryView) -> bool {
    let row = v.documents[s.document_id];
    &&& v.documents.contains_key(s.document_id)
    &&& s.current_manifest == row.current_manifest
    &&& s.current_version_id == row.current_version_id
    &&& v.manifest(row.current_manifest) matches Ok(m) && s.visible_name == m.visible_name
        && s.doc_type == m.doc_type && s.parent == m.parent && s.size_bytes
        == manifest::total_size(m.files) && s.page_count == documents::page_count(m.content_meta)
    &&& s.has_unpushed_changes <==> last_seen(v, s.document_id) != Some(row.current_manifest)
}

/// The listing shows every live document once, in ascending order of the identifiers, and no
/// archived one unless that is live as well; and what it shows is what the current manifest and
/// the device say.
pub proof fn listing_shows_the_live_documents(v: LibraryView)
    requires
        v.all_logged(),
        library::manifests_fit(v.manifests),
        table::lists_keys(v.documents, table::sorted_keys(v.documents)),
        documents_intact(v),
    ensures
        documents::document_listing(v) matches Ok(list) && {
            &&& forall|i: int, j: int|
                0 <= i < j < list.len() ==> text::lex_less(
                    (#[trigger] list[i]).document_id,
                    (#[trigger] list[j]).document_id,
                )
            &&& forall|k: Seq<char>| #[trigger]
                v.documents.contains_key(k) <==> exists|i: int|
                    0 <= i < list.len() && (#[trigger] list[i]).document_id == k
            &&& forall|i: int| 0 <= i < list.len() ==> tells_of(v, #[trigger] list[i])
            &&& v.live_and_archived_apart() ==> forall|i: int|
                0 <= i < list.len() ==> !v.archived.contains_key((#[trigger] list[i]).document_id)
        },
{
    let ids = table::sorted_keys(v.documents);
    assert forall|i: int| 0 <= i < ids.len() implies documents::is_listed(v, #[trigger] ids[i])
        && documents::live_summary(v, ids[i]) is Ok by {
        assert(ids.contains(ids[i]));
        assert(v.documents.contains_key(ids[i]));
        let id = v.documents[ids[i]].current_version_id;
        assert(library::logs(v.versions, ids[i], id));
    }
    lemma_summaries(v, ids);
    let list = documents::document_listing(v)->Ok_0;
    assert forall|i: int| 0 <= i < list.len() implies (#[trigger] list[i]).document_id == ids[i] by {}
    assert forall|i: int| 0 <= i < list.len() implies tells_of(v, #[trigger] list[i]) by {
        assert(ids.contains(ids[i]));
        let k = ids[i];
        let digest = v.documents[k].current_manifest;
        assert(v.manifests.contains_key(digest));
    }
    if v.live_and_archived_apart() {
        assert forall|i: int| 0 <= i < list.len() implies !v.archived.contains_key(
            (#[trigger] list[i]).document_id,
        ) by {
            assert(ids.contains(ids[i]));
            assert(v.documents.dom().contains(ids[i]));
            assert(!v.archived.dom().contains(ids[i]));
        }
    }
    assert forall|i: int, j: int| 0 <= i < j < list.len() implies text::lex_less(
        (#[trigger] list[i]).document_id,
        (#[trigger] list[j]).document_id,
    ) by {
        assert(text::lex_less(ids[i], ids[j]));
    }
    assert forall|k: Seq<char>| #[trigger] v.documents.contains_key(k) <==> exists|i: int|
        0 <= i < list.len() && (#[trigger] list[i]).document_id == k by {
        if v.documents.contains_key(k) {
            assert(ids.contains(k));
            let i = choose|i: int| 0 <= i < ids.len() && ids[i] == k;
            assert(list[i].document_id == k);
        }
        if exists|i: int| 0 <= i < list.len() && (#[trigger] list[i]).document_id == k {
            let i = choose|i: int| 0 <= i < list.len() && (#[trigger] list[i]).document_id == k;
            assert(ids.contains(ids[i]));
        }
    }
}

/// Whether some version of the log needs a blob: as its manifest, or as one of its files.
pub open spec fn is_needed(v: LibraryView, digest: Seq<char>) -> bool {
    exists|i: int|
        0 <= i < v.versions.len() && needs(v, (#[trigger] v.versions[i]).manifest_hash, digest)
}

/// Whether a manifest needs a blob.
pub open spec fn needs(v: LibraryView, manifest_hash: Seq<char>, digest: Seq<char>) -> bool {
    digest == manifest_hash || match v.manifest(manifest_hash) {
        Ok(m) => exists|f: int| 0 <= f < m.files.len() && (#[trigger] m.files[f]).sha256 == digest,
        Err(_) => false,
    }
}

proof fn lemma_live_is_needed(v: LibraryView, digest: Seq<char>)
    requires
        v.references_fit(),
        forall|i: int|
            0 <= i < v.versions.len() ==> v.manifest((#[trigger] v.versions[i]).manifest_hash) is Ok,
    ensures
        maintenance::is_live_blob(v, digest) <==> is_needed(v, digest),
{
    reveal(library::refs_fit);
    if maintenance::is_live_blob(v, digest) {
        let i = choose|i: int|
            0 <= i < v.versions.len() && v.blob_refs.contains(
                (digest, (#[trigger] v.versions[i]).manifest_hash),
            );
        let p = (digest, v.versions[i].manifest_hash);
        assert(v.blob_refs.contains(p));
        assert(v.manifest(p.1) is Ok);
        let m = v.manifest(p.1)->Ok_0;
        assert(versions::manifest_refs(m.files, p.1).contains(p));
        assert(needs(v, v.versions[i].manifest_hash, digest));
    }
    if is_needed(v, digest) {
        let i = choose|i: int|
            0 <= i < v.versions.len() && needs(v, (#[trigger] v.versions[i]).manifest_hash, digest);
        let d = v.versions[i].manifest_hash;
        assert(v.manifest(d) is Ok);
        let m = v.manifest(d)->Ok_0;
        assert(library::decoded(v.manifests, d) == Some(m));
        assert(versions::manifest_refs(m.files, d).contains((digest, d)));
        assert(v.blob_refs.contains((digest, d)));
    }
}

/// The files, among the first `n`, that a collection keeps.
pub open spec fn kept(v: LibraryView, files: Seq<BlobFile>, grace_nanos: u128, n: int) -> Seq<BlobFile>
    decreases n,
{
    if n <= 0 {
        seq![]
    } else {
        let rest = kept(v, files, grace_nanos, n - 1);
        if !maintenance::is_live_blob(v, files[n - 1].name@) && maintenance::is_old_enough(
            files[n - 1].age,
            grace_nanos,
        ) {
            rest
        } else {
            rest.push(files[n - 1])
        }
    }
}

/// The sizes of the given files, summed up.
pub open spec fn sizes(files: Seq<BlobFile>, at: Seq<int>) -> nat
    decreases at.len(),
{
    if at.len() == 0 {
        0
    } else {
        sizes(files, at.drop_last()) + files[at.last()].size as nat
    }
}

/// The library once the blobs in `gone` have left the disk.
pub open spec fn without_blobs(v: LibraryView, gone: Set<Seq<char>>) -> LibraryView {
    LibraryView {
        blobs: v.blobs.difference(gone),
        manifests: v.manifests.remove_keys(gone),
        ..v
    }
}

proof fn lemma_garbage_and_kept(v: LibraryView, files: Seq<BlobFile>, grace_nanos: u128, n: int)
    requires
        0 <= n <= files.len(),
    ensures
        ({
            let doomed = maintenance::garbage(v, files, grace_nanos, n);
            &&& doomed.len() + kept(v, files, grace_nanos, n).len() == n
            &&& forall|k: int| 0 <= k < doomed.len() ==> 0 <= #[trigger] doomed[k] < n
            &&& forall|i: int, j: int|
                0 <= i < j < doomed.len() ==> (#[trigger] doomed[i]) < (#[trigger] doomed[j])
            &&& forall|i: int|
                0 <= i < n ==> (#[trigger] doomed.contains(i) <==> !maintenance::is_live_blob(
                    v,
                    files[i].name@,
                ) && maintenance::is_old_enough(files[i].age, grace_nanos))
            &&& forall|j: int|
                0 <= j < kept(v, files, grace_nanos, n).len() ==> {
                    let f = #[trigger] kept(v, files, grace_nanos, n)[j];
                    maintenance::is_live_blob(v, f.name@) || !maintenance::is_old_enough(
                        f.age,
                        grace_nanos,
                    )
                }
        }),
    decreases n,
{
    if n > 0 {
        lemma_garbage_and_kept(v, files, grace_nanos, n - 1);
        let before = maintenance::garbage(v, files, grace_nanos, n - 1);
        let doomed = maintenance::garbage(v, files, grace_nanos, n);
        assert forall|i: int| 0 <= i < n implies (#[trigger] doomed.contains(i)
            <==> !maintenance::is_live_blob(v, files[i].name@) && maintenance::is_old_enough(
            files[i].age,
            grace_nanos,
        )) by {
            if i < n - 1 {
                assert(before.contains(i) <==> !maintenance::is_live_blob(v, files[i].name@)
                    && maintenance::is_old_enough(files[i].age, grace_nanos));
                if before.contains(i) {
                    let k = choose|k: int| 0 <= k < before.len() && before[k] == i;
                    assert(doomed[k] == i);
                }
                if doomed.contains(i) {
                    let k = choose|k: int| 0 <= k < doomed.len() && doomed[k] == i;
                    if k < before.len() {
                        assert(before[k] == i);
                    }
                }
            } else {
                if doomed.len() > before.len() {
                    assert(doomed[before.len() as int] == i);
                } else if doomed.contains(i) {
                    let k = choose|k: int| 0 <= k < before.len() && before[k] == i;
                    assert(before[k] < n - 1);
                }
            }
        }
    }
}

proof fn lemma_all_done(files: Seq<BlobFile>, at: Seq<int>, results: Seq<(u64, bool)>)
    requires
        results.len() == at.len(),
        forall|k: int| 0 <= k < at.len() ==> #[trigger] results[k] == (files[at[k]].size, true),
    ensures
        maintenance::done_count(results) == at.len(),
        maintenance::done_bytes(results) == sizes(files, at),
    decreases at.len(),
{
    if at.len() > 0 {
        let init = results.drop_last();
        assert forall|k: int| 0 <= k < at.drop_last().len() implies #[trigger] init[k] == (
            files[at.drop_last()[k]].size,
            true,
        ) by {
            assert(init[k] == results[k]);
        }
        lemma_all_done(files, at.drop_last(), init);
        assert(results[at.len() - 1] == (files[at[at.len() - 1]].size, true));
    }
}

/// A collection in which no deletion fails removes a file if, and only if, no version of the log
/// needs it and it is as old as the grace period; the report counts each of them and its size.
pub proof fn collection_removes_what_nothing_needs(
    v: LibraryView,
    files: Seq<BlobFile>,
    grace_nanos: u128,
    results: Seq<(u64, bool)>,
)
    requires
        v.references_fit(),
        forall|i: int|
            0 <= i < v.versions.len() ==> v.manifest((#[trigger] v.versions[i]).manifest_hash) is Ok,
        forall|i: int| 0 <= i < files.len() ==> (#[trigger] files[i]).age is Nanos,
        results.len() == maintenance::garbage(v, files, grace_nanos, files.len() as int).len(),
        forall|k: int|
            0 <= k < results.len() ==> #[trigger] results[k] == (
                files[maintenance::garbage(v, files, grace_nanos, files.len() as int)[k]].size,
                true,
            ),
    ensures
        ({
            let doomed = maintenance::garbage(v, files, grace_nanos, files.len() as int);
            &&& doomed.no_duplicates()
            &&& forall|i: int|
                0 <= i < files.len() ==> (#[trigger] doomed.contains(i) <==> !is_needed(
                    v,
                    files[i].name@,
                ) && files[i].age->Nanos_0 >= grace_nanos)
            &&& maintenance::done_count(results) == doomed.len()
            &&& maintenance::done_bytes(results) == sizes(files, doomed)
            &&& results.len() - maintenance::done_count(results) == 0
        }),
{
    let doomed = maintenance::garbage(v, files, grace_nanos, files.len() as int);
    lemma_garbage_and_kept(v, files, grace_nanos, files.len() as int);
    lemma_all_done(files, doomed, results);
    assert forall|i: int, j: int| 0 <= i < doomed.len() && 0 <= j < doomed.len() && i != j implies doomed[i]
        != doomed[j] by {
        if i < j {
            assert(doomed[i] < doomed[j]);
        } else {
            assert(doomed[j] < doomed[i]);
        }
    }
    assert forall|i: int| 0 <= i < files.len() implies (#[trigger] doomed.contains(i) <==> !is_needed(
        v,
        files[i].name@,
    ) && files[i].age->Nanos_0 >= grace_nanos) by {
        lemma_live_is_needed(v, files[i].name@);
        assert(files[i].age is Nanos);
    }
}

/// A collection without a grace period leaves nothing for a second one to remove: that one scans
/// the files that were kept, at whatever age, and has none of them to remove. Neither of them
/// changes a record.
pub proof fn second_collection_finds_nothing(
    v: LibraryView,
    files: Seq<BlobFile>,
    gone: Set<Seq<char>>,
    left: Seq<BlobFile>,
)
    requires
        forall|i: int| 0 <= i < files.len() ==> (#[trigger] files[i]).age is Nanos,
        left.len() == kept(v, files, 0, files.len() as int).len(),
        forall|j: int|
            0 <= j < left.len() ==> (#[trigger] left[j]).name@ == kept(
                v,
                files,
                0,
                files.len() as int,
            )[j].name@,
    ensures
        ({
            let after = without_blobs(v, gone);
            &&& left.len() == files.len() - maintenance::garbage(v, files, 0, files.len() as int).len()
            &&& maintenance::garbage(after, left, 0, left.len() as int).len() == 0
            &&& after.versions == v.versions && after.documents == v.documents
        }),
{
    let after = without_blobs(v, gone);
    lemma_garbage_and_kept(v, files, 0, files.len() as int);
    lemma_kept_are_files(v, files, 0, files.len() as int);
    lemma_garbage_and_kept(after, left, 0, left.len() as int);
    let again = maintenance::garbage(after, left, 0, left.len() as int);
    if again.len() > 0 {
        let j = again[0];
        assert(again.contains(j));
        let f = kept(v, files, 0, files.len() as int)[j];
        assert(left[j].name@ == f.name@);
        assert(maintenance::is_live_blob(after, f.name@) == maintenance::is_live_blob(v, f.name@));
        assert(f.age is Nanos);
    }
}

proof fn lemma_kept_are_files(v: LibraryView, files: Seq<BlobFile>, grace_nanos: u128, n: int)
    requires
        0 <= n <= files.len(),
        forall|i: int| 0 <= i < files.len() ==> (#[trigger] files[i]).age is Nanos,
    ensures
        forall|j: int|
            0 <= j < kept(v, files, grace_nanos, n).len() ==> (#[trigger] kept(
                v,
                files,
                grace_nanos,
                n,
            )[j]).age is Nanos,
    decreases n,
{
    if n > 0 {
        lemma_kept_are_files(v, files, grace_nanos, n - 1);
    }
}

/// Attaching an artefact never makes a document look changed: one that the device has is still
/// one that it has, and of one with unpushed changes the device is still known to have what it
/// had. Only the file at the path of the artefact is touched, which has to lie under `ocr/`.
pub proof fn artefact_touches_only_its_path(
    v: LibraryView,
    document_id: Seq<char>,
    path: Seq<char>,
    bytes: Seq<u8>,
    stored: LibraryView,
    digest: Seq<char>,
    now: Seq<char>,
)
    requires
        v.documents.contains_key(document_id),
        library::names(v.manifests, v.documents[document_id].current_manifest, document_id),
        stored == (LibraryView { blobs: stored.blobs, manifests: stored.manifests, ..v }),
    ensures
        !text::has_prefix(path, "ocr/"@) ==> derived::attached(v, document_id, path, bytes) == Err::<
            DerivedView,
            ErrorView,
        >(
            ErrorView::InvalidArgument(
                "derived artefact path must live under `ocr/`, got "@ + text::quoted(path),
            ),
        ),
        derived::attached(v, document_id, path, bytes) matches Ok(artefact) ==> {
            let before = v.manifest(v.documents[document_id].current_manifest)->Ok_0.files;
            let files = artefact.manifest.files;
            let after = derived::derived_recorded(stored, artefact, digest, now);
            &&& forall|i: int|
                0 <= i < before.len() && (#[trigger] before[i]).path != path ==> i < files.len()
                    && files[i] == before[i]
            &&& forall|i: int|
                0 <= i < files.len() && (#[trigger] files[i]).path != path ==> i < before.len()
                    && before[i] == files[i]
            &&& derived::derived_result(stored, artefact, digest) is Ok ==> {
                &&& versions::is_current(after, document_id, digest)
                &&& if documents::is_unpushed(v, document_id) {
                    last_seen(after, document_id) == last_seen(v, document_id)
                } else {
                    !documents::is_unpushed(after, document_id)
                }
            }
        },
{
    if let Ok(artefact) = derived::attached(v, document_id, path, bytes) {
        let before = v.manifest(v.documents[document_id].current_manifest)->Ok_0.files;
        assert(artefact.manifest.document_id == document_id);
        let file = derived::derived_file(path, bytes);
        if exists|i: int| derived::is_first_at(before, file.path, i) {
            let i = choose|i: int| derived::is_first_at(before, file.path, i);
            assert(derived::is_first_at(before, file.path, i));
        }
    }
}

/// A document that is not archived cannot be brought back.
pub proof fn only_archived_documents_come_back(
    v: LibraryView,
    document_id: Seq<char>,
    r: Result<UnarchivingView, ErrorView>,
)
    requires
        archive::answers_return(v, document_id, r),
        !v.archived.contains_key(document_id),
    ensures
        r == Err::<UnarchivingView, ErrorView>(
            ErrorView::NotFound("archived document "@ + document_id),
        ),
{
}

/// Whether the blobs of an archived document are intact: its manifest can be read, is its own and
/// has a metadata file, and the bytes of that file are an object.
pub open spec fn archived_intact(v: LibraryView, document_id: Seq<char>, metadata: Seq<u8>) -> bool {
    let digest = v.archived[document_id].manifest_hash;
    &&& hash::is_hex_digest(digest)
    &&& v.manifest(digest) matches Ok(m) && m.document_id == document_id && exists|i: int|
        0 <= i < m.files.len() && text::has_suffix((#[trigger] m.files[i]).path, ".metadata"@)
    &&& json::parsed_json(metadata) matches Ok(value) && json::json_object(value) is Some
}

/// A document that is brought back from the archive is live again: it lies in the folder it was
/// in, if that is still there and no tombstone, and else at the root, and the summary of the
/// return says so; its metadata no longer say that it is deleted; and the archive no longer has
/// it.
pub proof fn document_comes_back(
    v: LibraryView,
    document_id: Seq<char>,
    r: Result<UnarchivingView, ErrorView>,
    metadata: Seq<u8>,
    now_ms: i64,
    edited: EditedView,
    stored: LibraryView,
    digest: Seq<char>,
    now: Seq<char>,
)
    requires
        is_valid(v),
        v.archived.contains_key(document_id),
        !v.documents.contains_key(document_id),
        v.next_version_id <= i64::MAX,
        archived_intact(v, document_id, metadata),
        archive::answers_return(v, document_id, r),
        r matches Ok(u) ==> {
            &&& documents::applied(u.request, metadata, now_ms) matches Ok(e) ==> e == edited
            &&& documents::meets(u.request.patch, edited)
        },
        stored == (LibraryView { blobs: stored.blobs, manifests: stored.manifests, ..v }),
        hash::is_hex_digest(digest),
        stored.manifest(digest) == Ok::<ManifestView, ErrorView>(edited.manifest),
    ensures
        r matches Ok(u) && {
            let row = v.archived[document_id];
            let home = match folders::nonempty(row.parent) {
                Some(p) => if v.folders.contains_key(p) && !v.folders[p].deleted_locally {
                    Some(p)
                } else {
                    None
                },
                None => None,
            };
            let after = documents::metadata_recorded(stored, edited, digest, now);
            let files = edited.manifest.files;
            let index = u.request.metadata_index;
            &&& documents::applied(u.request, metadata, now_ms) == Ok::<EditedView, ErrorView>(
                edited,
            )
            &&& documents::edit_result(stored, edited, digest) matches Ok(o) && {
                let s = archive::summary_of_return(
                    after,
                    document_id,
                    u.visible_name,
                    u.doc_type,
                    u.parent,
                    o,
                );
                &&& s.parent == home
                &&& s.visible_name == row.visible_name
                &&& s.doc_type == row.doc_type
                &&& s.current_manifest == digest
                &&& documents::live_summary(after, document_id) matches Ok(listed)
                    && listed.parent == home && listed.current_version_id == s.current_version_id
                    && listed.size_bytes == s.size_bytes && listed.page_count == s.page_count
                    && listed.last_observed_at == s.last_observed_at
            }
            &&& !after.archived.contains_key(document_id)
            &&& documents::is_listed(after, document_id)
            &&& exists|fields: Map<Seq<char>, serde_json::Value>| #[trigger]
                json::object_value(fields) == edited.manifest.metadata && fields.contains_key(
                    "deleted"@,
                ) && fields["deleted"@] == json::bool_value(false) && documents::is_metadata_index(
                    files,
                    index,
                ) && files[index].sha256 == hash::digest_hex(
                    json::pretty_json(json::object_value(fields)),
                )
        },
{
    let row = v.archived[document_id];
    let after = documents::metadata_recorded(stored, edited, digest, now);
    let m = v.manifest(row.manifest_hash)->Ok_0;
    let i = choose|i: int|
        0 <= i < m.files.len() && text::has_suffix((#[trigger] m.files[i]).path, ".metadata"@);
    assert(text::has_suffix(m.files[i].path, ".metadata"@));
    assert(r is Ok);
    let request = r->Ok_0.request;
    let fields = json::json_object(json::parsed_json(metadata)->Ok_0)->0;
    let patch = documents::patched(fields, request.patch);
    documents::lemma_marks_spare_the_patch(patch, now_ms);
    let touched = json::touched(patch, now_ms);
    assert(json::object_value(touched) == edited.manifest.metadata);
    let before = request.manifest.files;
    assert forall|j: int| 0 <= j < request.metadata_index implies !text::has_suffix(
        (#[trigger] edited.manifest.files[j]).path,
        ".metadata"@,
    ) by {
        assert(edited.manifest.files[j] == before[j]);
    }
    assert(after.versions[v.versions.len() as int].id == v.next_version_id);
}

/// Whether a folder lies directly in another and is no tombstone.
pub open spec fn is_child(
    all: Map<Seq<char>, FolderRowView>,
    id: Seq<char>,
    folder_id: Seq<char>,
) -> bool {
    all.contains_key(id) && !all[id].deleted_locally && id != folder_id && folders::parent_text(
        all[id].parent,
    ) == folder_id
}

proof fn lemma_children(
    all: Map<Seq<char>, FolderRowView>,
    keys: Seq<Seq<char>>,
    folder_id: Seq<char>,
)
    requires
        folders_under_own_id(all),
        forall|i: int| 0 <= i < keys.len() ==> all.contains_key(#[trigger] keys[i]),
        forall|i: int, j: int|
            0 <= i < j < keys.len() ==> text::lex_less(#[trigger] keys[i], #[trigger] keys[j]),
    ensures
        ({
            let children = folders::children_among(all, keys, folder_id);
            &&& forall|j: int|
                0 <= j < children.len() ==> keys.contains((#[trigger] children[j]).0) && is_child(
                    all,
                    children[j].0,
                    folder_id,
                ) && children[j].1 == all[children[j].0].sort_index
            &&& forall|k: Seq<char>|
                keys.contains(k) && #[trigger] is_child(all, k, folder_id) ==> exists|j: int|
                    0 <= j < children.len() && (#[trigger] children[j]).0 == k
            &&& forall|i: int, j: int|
                0 <= i < j < children.len() ==> text::lex_less(
                    (#[trigger] children[i]).0,
                    (#[trigger] children[j]).0,
                )
        }),
    decreases keys.len(),
{
    if keys.len() > 0 {
        let init = keys.drop_last();
        let last = keys.last();
        assert forall|i: int| 0 <= i < init.len() implies all.contains_key(#[trigger] init[i]) by {
            assert(init[i] == keys[i]);
        }
        assert forall|i: int, j: int| 0 <= i < j < init.len() implies text::lex_less(
            #[trigger] init[i],
            #[trigger] init[j],
        ) by {
            assert(text::lex_less(keys[i], keys[j]));
        }
        lemma_children(all, init, folder_id);
        let rest = folders::children_among(all, init, folder_id);
        let children = folders::children_among(all, keys, folder_id);
        assert(keys[keys.len() - 1] == last);
        assert(all.contains_key(last));
        assert forall|j: int| 0 <= j < children.len() implies keys.contains(
            (#[trigger] children[j]).0,
        ) && is_child(all, children[j].0, folder_id) && children[j].1
            == all[children[j].0].sort_index by {
            if j < rest.len() {
                assert(children[j] == rest[j]);
                let i = choose|i: int| 0 <= i < init.len() && init[i] == rest[j].0;
                assert(keys[i] == rest[j].0);
            }
        }
        assert forall|k: Seq<char>| keys.contains(k) && #[trigger] is_child(
            all,
            k,
            folder_id,
        ) implies exists|j: int| 0 <= j < children.len() && (#[trigger] children[j]).0 == k by {
            if k == last {
                assert(children[rest.len() as int].0 == k);
            } else {
                let i = choose|i: int| 0 <= i < keys.len() && keys[i] == k;
                assert(init[i] == k);
                let j = choose|j: int| 0 <= j < rest.len() && (#[trigger] rest[j]).0 == k;
                assert(children[j].0 == k);
            }
        }
        assert forall|i: int, j: int| 0 <= i < j < children.len() implies text::lex_less(
            (#[trigger] children[i]).0,
            (#[trigger] children[j]).0,
        ) by {
            assert(children[i] == rest[i]);
            if j < rest.len() {
                assert(children[j] == rest[j]);
            } else {
                let n = choose|n: int| 0 <= n < init.len() && init[n] == rest[i].0;
                assert(text::lex_less(keys[n], keys[keys.len() - 1]));
            }
        }
    }
}

/// Whether nothing that lies directly in a folder also lies above it. In a tree nothing does;
/// see [`laws::no_folder_lies_above_its_parent`].
pub open spec fn none_above(all: Map<Seq<char>, FolderRowView>, folder_id: Seq<char>) -> bool {
    forall|n: nat|
        (#[trigger] laws::up(all, folder_id, n)) matches Some(k) ==> !is_child(all, k, folder_id)
}

/// Whether a folder is one of the given children.
pub open spec fn is_among(children: Seq<(Seq<char>, SortIndex)>, id: Seq<char>) -> bool {
    exists|j: int| 0 <= j < children.len() && (#[trigger] children[j]).0 == id
}

/// A way up that meets none of the folders whose place has changed stays as it is.
proof fn lemma_same_way(
    all: Map<Seq<char>, FolderRowView>,
    after: Map<Seq<char>, FolderRowView>,
    children: Seq<(Seq<char>, SortIndex)>,
    start: Seq<char>,
    n: nat,
)
    requires
        forall|k: Seq<char>|
            !is_among(children, k) ==> folders::parent_of(all, k) == #[trigger] folders::parent_of(
                after,
                k,
            ),
        forall|m: nat|
            (#[trigger] laws::up(all, start, m)) matches Some(k) ==> !is_among(children, k),
    ensures
        laws::up(after, start, n) == laws::up(all, start, n),
    decreases n,
{
    assert(laws::up(all, start, 0) == Some(start));
    if n > 0 {
        assert(folders::parent_of(after, start) == folders::parent_of(all, start));
        if let Some(p) = folders::parent_of(all, start) {
            assert forall|m: nat|
                (#[trigger] laws::up(all, p, m)) matches Some(k) ==> !is_among(children, k) by {
                assert(laws::up(all, start, (m + 1) as nat) == laws::up(all, p, m));
            }
            lemma_same_way(all, after, children, p, (n - 1) as nat);
        }
    }
}

proof fn lemma_lifted(
    v: LibraryView,
    children: Seq<(Seq<char>, SortIndex)>,
    folder_id: Seq<char>,
    now_ms: i64,
)
    requires
        folder_id.len() > 0,
        none_above(v.folders, folder_id),
        forall|j: int|
            0 <= j < children.len() ==> is_child(
                v.folders,
                (#[trigger] children[j]).0,
                folder_id,
            ) && rows::is_finite(children[j].1),
        forall|i: int, j: int|
            0 <= i < j < children.len() ==> (#[trigger] children[i]).0 != (
            #[trigger] children[j]).0,
    ensures
        ({
            let home = folders::parent_of(v.folders, folder_id);
            let (after, error) = folders::lifted(v, children, home, now_ms);
            &&& error is None
            &&& after == (LibraryView { folders: after.folders, ..v })
            &&& after.folders.dom() == v.folders.dom()
            &&& forall|k: Seq<char>| #[trigger]
                after.folders.contains_key(k) ==> if is_among(children, k) {
                    folders::nonempty(after.folders[k].parent) == home
                        && after.folders[k].deleted_locally == v.folders[k].deleted_locally
                } else {
                    after.folders[k] == v.folders[k]
                }
        }),
    decreases children.len(),
{
    let home = folders::parent_of(v.folders, folder_id);
    if children.len() > 0 {
        let init = children.drop_last();
        let (id, position) = children.last();
        assert(children[children.len() - 1] == children.last());
        assert forall|j: int| 0 <= j < init.len() implies is_child(
            v.folders,
            (#[trigger] init[j]).0,
            folder_id,
        ) && rows::is_finite(init[j].1) by {
            assert(init[j] == children[j]);
        }
        assert forall|i: int, j: int| 0 <= i < j < init.len() implies (#[trigger] init[i]).0 != (
        #[trigger] init[j]).0 by {
            assert(children[i].0 != children[j].0);
        }
        lemma_lifted(v, init, folder_id, now_ms);
        let before = folders::lifted(v, init, home, now_ms).0;
        assert(!is_among(init, id)) by {
            if is_among(init, id) {
                let j = choose|j: int| 0 <= j < init.len() && (#[trigger] init[j]).0 == id;
                assert(children[j].0 != children[children.len() - 1].0);
            }
        }
        assert(!is_among(init, folder_id)) by {
            if is_among(init, folder_id) {
                let j = choose|j: int| 0 <= j < init.len() && (#[trigger] init[j]).0 == folder_id;
                assert(is_child(v.folders, init[j].0, folder_id));
            }
        }
        assert(is_child(v.folders, id, folder_id));
        assert(before.folders.dom().contains(id) == v.folders.dom().contains(id));
        assert(before.folders.contains_key(id));
        assert(before.folders.dom().contains(folder_id) == v.folders.dom().contains(folder_id));
        assert(folders::parent_of(before.folders, folder_id) == home) by {
            if before.folders.contains_key(folder_id) {
                assert(before.folders[folder_id] == v.folders[folder_id]);
            }
        }
        assert forall|k: Seq<char>| !is_among(init, k) implies folders::parent_of(v.folders, k)
            == #[trigger] folders::parent_of(before.folders, k) by {
            assert(before.folders.dom().contains(k) == v.folders.dom().contains(k));
            if before.folders.contains_key(k) {
                assert(before.folders[k] == v.folders[k]);
            }
        }
        assert forall|m: nat|
            (#[trigger] laws::up(v.folders, folder_id, m)) matches Some(k) ==> !is_among(init, k) by {
            let k = laws::up(v.folders, folder_id, m)->0;
            if laws::up(v.folders, folder_id, m) is Some && is_among(init, k) {
                let j = choose|j: int| 0 <= j < init.len() && (#[trigger] init[j]).0 == k;
                assert(is_child(v.folders, init[j].0, folder_id));
            }
        }
        assert forall|n: nat| #[trigger] laws::up(before.folders, folder_id, n) != Some(id) by {
            lemma_same_way(v.folders, before.folders, init, folder_id, n);
            assert(laws::up(v.folders, folder_id, n) != Some(id));
        }
        laws::folder_may_move_up(before, id, folder_id, position);
        let after = folders::reordered(before, id, home, position, now_ms);
        assert(folders::lifted(v, children, home, now_ms) == (after, None::<ErrorView>));
        assert(after.folders.dom() =~= v.folders.dom());
        assert forall|k: Seq<char>| #[trigger] after.folders.contains_key(k) implies if is_among(
            children,
            k,
        ) {
            folders::nonempty(after.folders[k].parent) == home && after.folders[k].deleted_locally
                == v.folders[k].deleted_locally
        } else {
            after.folders[k] == v.folders[k]
        } by {
            if k == id {
                assert(children[children.len() - 1].0 == k);
                assert(after.folders[k] == folders::replaced(
                    before.folders[k],
                    home,
                    position,
                    now_ms,
                ));
            } else {
                assert(before.folders.contains_key(k));
                if is_among(init, k) {
                    let j = choose|j: int| 0 <= j < init.len() && (#[trigger] init[j]).0 == k;
                    assert(children[j].0 == k);
                }
                if is_among(children, k) {
                    let j = choose|j: int|
                        0 <= j < children.len() && (#[trigger] children[j]).0 == k;
                    assert(init[j].0 == k);
                }
            }
        }
    }
}

/// The folder that a live document is in.
pub open spec fn folder_of(v: LibraryView, document_id: Seq<char>) -> Option<Seq<char>> {
    match v.manifest(v.documents[document_id].current_manifest) {
        Ok(m) => m.parent,
        Err(_) => None,
    }
}

/// The steps by which a document is moved: the edited manifest is stored, with what it needs, and
/// the edit is recorded.
pub struct MoveSteps {
    pub stored: LibraryView,
    pub edited: EditedView,
    pub digest: Seq<char>,
    pub now: Seq<char>,
}

/// Whether `w` comes of `v` when a document is moved by the given steps.
pub open spec fn moves(
    v: LibraryView,
    w: LibraryView,
    document_id: Seq<char>,
    home: Option<Seq<char>>,
    steps: MoveSteps,
) -> bool {
    let stored = steps.stored;
    &&& stored == (LibraryView { blobs: stored.blobs, manifests: stored.manifests, ..v })
    &&& v.manifests.submap_of(stored.manifests)
    &&& hash::is_hex_digest(steps.digest)
    &&& stored.manifest(steps.digest) == Ok::<ManifestView, ErrorView>(steps.edited.manifest)
    &&& steps.edited.document_id == document_id
    &&& steps.edited.manifest.document_id == document_id
    &&& steps.edited.post is Keep
    &&& steps.edited.manifest.parent == home
    &&& documents::edit_result(stored, steps.edited, steps.digest) is Ok
    &&& w == documents::metadata_recorded(stored, steps.edited, steps.digest, steps.now)
}

/// Whether the given documents are moved one after the other, and the library goes through the
/// given states.
pub open spec fn moves_all(
    states: Seq<LibraryView>,
    ids: Seq<Seq<char>>,
    home: Option<Seq<char>>,
    steps: Seq<MoveSteps>,
) -> bool {
    &&& states.len() == ids.len() + 1
    &&& steps.len() == ids.len()
    &&& forall|i: int|
        0 <= i < ids.len() ==> moves(
            states[i],
            states[i + 1],
            #[trigger] ids[i],
            home,
            steps[i],
        )
}

proof fn lemma_moved(
    states: Seq<LibraryView>,
    ids: Seq<Seq<char>>,
    home: Option<Seq<char>>,
    steps: Seq<MoveSteps>,
    n: int,
)
    requires
        moves_all(states, ids, home, steps),
        documents_intact(states[0]),
        0 <= n <= ids.len(),
    ensures
        ({
            let v = states[0];
            let w = states[n];
            &&& documents_intact(w)
            &&& w.folders == v.folders
            &&& w.archived == v.archived
            &&& w.documents.dom() == v.documents.dom()
            &&& forall|k: Seq<char>| #[trigger]
                w.documents.contains_key(k) ==> folder_of(w, k) == if ids.take(n).contains(k) {
                    home
                } else {
                    folder_of(v, k)
                }
        }),
    decreases n,
{
    if n > 0 {
        let v = states[0];
        let u = states[n - 1];
        let w = states[n];
        let id = ids[n - 1];
        let last = steps[n - 1];
        lemma_moved(states, ids, home, steps, n - 1);
        assert(moves(states[n - 1], states[n - 1 + 1], ids[n - 1], home, steps[n - 1]));
        assert(moves(u, w, id, home, last));
        assert(u.documents.contains_key(id));
        assert(w.documents.dom() =~= u.documents.dom());
        assert(w.manifests == last.stored.manifests);
        assert(versions::is_current(w, id, last.digest));
        assert forall|k: Seq<char>| #[trigger] w.documents.contains_key(k) implies
            hash::is_hex_digest(w.documents[k].current_manifest) && w.manifest(
            w.documents[k].current_manifest,
        ) is Ok && folder_of(w, k) == if ids.take(n).contains(k) {
            home
        } else {
            folder_of(v, k)
        } by {
            if k == id {
                assert(ids.take(n)[n - 1] == k);
                assert(w.manifest(last.digest) == last.stored.manifest(last.digest));
            } else {
                assert(u.documents.contains_key(k));
                let d = u.documents[k].current_manifest;
                assert(w.documents[k] == u.documents[k]);
                assert(u.manifests.contains_key(d));
                assert(u.manifests.dom().contains(d));
                assert(w.manifests.contains_key(d) && w.manifests[d] == u.manifests[d]);
                assert(w.manifest(d) == u.manifest(d));
                let fewer = ids.take(n - 1);
                let more = ids.take(n);
                if fewer.contains(k) {
                    let i = choose|i: int| 0 <= i < fewer.len() && fewer[i] == k;
                    assert(more[i] == k);
                }
                if more.contains(k) {
                    let i = choose|i: int| 0 <= i < more.len() && more[i] == k;
                    assert(fewer[i] == k);
                }
            }
        }
    }
}

proof fn lemma_documents_in(list: Seq<SummaryView>, folder_id: Seq<char>)
    requires
        forall|i: int, j: int|
            0 <= i < j < list.len() ==> text::lex_less(
                (#[trigger] list[i]).document_id,
                (#[trigger] list[j]).document_id,
            ),
    ensures
        ({
            let ids = folders::documents_in(list, folder_id);
            &&& forall|i: int|
                0 <= i < list.len() && (#[trigger] list[i]).parent == Some(folder_id)
                    ==> ids.contains(list[i].document_id)
            &&& forall|n: int|
                0 <= n < ids.len() ==> exists|i: int|
                    0 <= i < list.len() && (#[trigger] list[i]).document_id == (#[trigger] ids[n])
                        && list[i].parent == Some(folder_id)
            &&& forall|n: int, m: int|
                0 <= n < m < ids.len() ==> text::lex_less(#[trigger] ids[n], #[trigger] ids[m])
        }),
    decreases list.len(),
{
    if list.len() > 0 {
        let init = list.drop_last();
        assert forall|i: int, j: int| 0 <= i < j < init.len() implies text::lex_less(
            (#[trigger] init[i]).document_id,
            (#[trigger] init[j]).document_id,
        ) by {
            assert(text::lex_less(list[i].document_id, list[j].document_id));
        }
        lemma_documents_in(init, folder_id);
        let rest = folders::documents_in(init, folder_id);
        let ids = folders::documents_in(list, folder_id);
        assert forall|i: int|
            0 <= i < list.len() && (#[trigger] list[i]).parent == Some(folder_id) implies ids.contains(
            list[i].document_id,
        ) by {
            if i < init.len() {
                assert(init[i] == list[i]);
                let n = choose|n: int| 0 <= n < rest.len() && rest[n] == init[i].document_id;
                assert(ids[n] == list[i].document_id);
            } else {
                assert(ids[rest.len() as int] == list[i].document_id);
            }
        }
        assert forall|n: int| 0 <= n < ids.len() implies exists|i: int|
            0 <= i < list.len() && (#[trigger] list[i]).document_id == (#[trigger] ids[n])
                && list[i].parent == Some(folder_id) by {
            if n < rest.len() {
                assert(ids[n] == rest[n]);
                let i = choose|i: int|
                    0 <= i < init.len() && (#[trigger] init[i]).document_id == rest[n]
                        && init[i].parent == Some(folder_id);
                assert(list[i].document_id == ids[n]);
            } else {
                assert(list[list.len() - 1].document_id == ids[n]);
            }
        }
        assert forall|n: int, m: int| 0 <= n < m < ids.len() implies text::lex_less(
            #[trigger] ids[n],
            #[trigger] ids[m],
        ) by {
            assert(ids[n] == rest[n]);
            if m < rest.len() {
                assert(ids[m] == rest[m]);
            } else {
                let i = choose|i: int|
                    0 <= i < init.len() && (#[trigger] init[i]).document_id == rest[n]
                        && init[i].parent == Some(folder_id);
                assert(text::lex_less(list[i].document_id, list[list.len() - 1].document_id));
            }
        }
    }
}

/// A folder that lies in none of its own folders can be deleted. What was directly in it, folders
/// and documents, comes to lie where the folder was; all else keeps its place, also what lies deeper
/// in it, and the archive is left alone. Nothing leaves but the folder itself, and the report
/// counts what was directly in it, each once. To delete it again changes nothing.
pub proof fn folder_deletion_lifts_its_contents(
    v: LibraryView,
    folder_id: Seq<char>,
    now_ms: i64,
    states: Seq<LibraryView>,
    steps: Seq<MoveSteps>,
    later_ms: i64,
    again_ms: i64,
)
    requires
        is_valid(v),
        v.all_logged(),
        documents_intact(v),
        folder_id.len() > 0,
        none_above(v.folders, folder_id),
        forall|k: Seq<char>| #[trigger]
            is_child(v.folders, k, folder_id) ==> rows::is_finite(v.folders[k].sort_index),
        v.folders.contains_key(folder_id),
        !v.folders[folder_id].deleted_locally,
        states.len() > 0,
        states[0] == folders::deletion_begun(v, folder_id, now_ms).0,
        folders::deletion_begun(v, folder_id, now_ms).1 matches Ok(d) ==> moves_all(
            states,
            d.documents,
            d.new_parent,
            steps,
        ),
    ensures
        ({
            let home = folders::parent_of(v.folders, folder_id);
            let done = folders::tombstoned(states.last(), folder_id, later_ms);
            let children = folders::child_folders(v, folder_id);
            &&& folders::deletion_begun(v, folder_id, now_ms).1 matches Ok(d) && !d.already_deleted
                && d.new_parent == home && d.folders_moved == children.len()
                && d.documents.no_duplicates() && forall|k: Seq<char>| #[trigger]
                d.documents.contains(k) <==> v.documents.contains_key(k) && folder_of(v, k) == Some(
                    folder_id,
                )
            &&& forall|i: int, j: int|
                0 <= i < j < children.len() ==> (#[trigger] children[i]).0 != (
                #[trigger] children[j]).0
            &&& forall|k: Seq<char>| #[trigger]
                is_among(children, k) <==> is_child(v.folders, k, folder_id)
            &&& done.folders.dom() == v.folders.dom()
            &&& done.folders[folder_id].deleted_locally
            &&& forall|k: Seq<char>|
                #![trigger done.folders.contains_key(k)]
                done.folders.contains_key(k) && k != folder_id ==> {
                    &&& done.folders[k].deleted_locally == v.folders[k].deleted_locally
                    &&& folders::parent_of(done.folders, k) == if is_child(v.folders, k, folder_id) {
                        home
                    } else {
                        folders::parent_of(v.folders, k)
                    }
                }
            &&& done.documents.dom() == v.documents.dom()
            &&& forall|k: Seq<char>| #[trigger]
                done.documents.contains_key(k) ==> folder_of(done, k) == if folder_of(v, k) == Some(
                    folder_id,
                ) {
                    home
                } else {
                    folder_of(v, k)
                }
            &&& done.archived == v.archived
            &&& folders::deletion_begun(done, folder_id, again_ms) == (
                done,
                Ok::<folders::FolderDeletionView, ErrorView>(
                    folders::FolderDeletionView {
                        already_deleted: true,
                        new_parent: None,
                        folders_moved: 0,
                        documents: seq![],
                    },
                ),
            )
        }),
{
    let home = folders::parent_of(v.folders, folder_id);
    let keys = table::sorted_keys(v.folders);
    let children = folders::child_folders(v, folder_id);
    assert forall|i: int| 0 <= i < keys.len() implies v.folders.contains_key(#[trigger] keys[i]) by {
        assert(keys.contains(keys[i]));
    }
    lemma_children(v.folders, keys, folder_id);
    assert forall|i: int, j: int| 0 <= i < j < children.len() implies (#[trigger] children[i]).0 != (
    #[trigger] children[j]).0 by {
        assert(text::lex_less(children[i].0, children[j].0));
        text::lemma_lex_irreflexive(children[i].0);
    }
    assert forall|j: int| 0 <= j < children.len() implies is_child(
        v.folders,
        (#[trigger] children[j]).0,
        folder_id,
    ) && rows::is_finite(children[j].1) by {
        assert(is_child(v.folders, children[j].0, folder_id));
    }
    assert forall|k: Seq<char>| #[trigger] is_among(children, k) <==> is_child(
        v.folders,
        k,
        folder_id,
    ) by {
        if is_child(v.folders, k, folder_id) {
            assert(keys.contains(k));
        }
        if is_among(children, k) {
            let j = choose|j: int| 0 <= j < children.len() && (#[trigger] children[j]).0 == k;
            assert(is_child(v.folders, children[j].0, folder_id));
        }
    }
    lemma_lifted(v, children, folder_id, now_ms);
    let begun = folders::lifted(v, children, home, now_ms).0;
    assert(documents_intact(begun)) by {
        assert forall|k: Seq<char>| #[trigger] begun.documents.contains_key(k) implies
            hash::is_hex_digest(begun.documents[k].current_manifest) && begun.manifest(
            begun.documents[k].current_manifest,
        ) is Ok by {
            assert(v.documents.contains_key(k));
        }
    }
    listing_shows_the_live_documents(begun);
    let list = documents::document_listing(begun)->Ok_0;
    lemma_documents_in(list, folder_id);
    let ids = folders::documents_in(list, folder_id);
    assert(ids.no_duplicates()) by {
        assert forall|i: int, j: int| 0 <= i < ids.len() && 0 <= j < ids.len() && i != j implies ids[i]
            != ids[j] by {
            text::lemma_lex_irreflexive(ids[i]);
            if i < j {
                assert(text::lex_less(ids[i], ids[j]));
            } else {
                assert(text::lex_less(ids[j], ids[i]));
            }
        }
    }
    assert forall|k: Seq<char>| v.documents.contains_key(k) implies folder_of(begun, k) == folder_of(
        v,
        k,
    ) by {}
    assert forall|k: Seq<char>| #[trigger] ids.contains(k) <==> v.documents.contains_key(k)
        && folder_of(v, k) == Some(folder_id) by {
        if ids.contains(k) {
            let n = choose|n: int| 0 <= n < ids.len() && ids[n] == k;
            let i = choose|i: int|
                0 <= i < list.len() && (#[trigger] list[i]).document_id == ids[n] && list[i].parent
                    == Some(folder_id);
            assert(tells_of(begun, list[i]));
        }
        if v.documents.contains_key(k) && folder_of(v, k) == Some(folder_id) {
            assert(begun.documents.contains_key(k));
            let i = choose|i: int| 0 <= i < list.len() && (#[trigger] list[i]).document_id == k;
            assert(tells_of(begun, list[i]));
        }
    }
    let moved = states.last();
    lemma_moved(states, ids, home, steps, ids.len() as int);
    assert(ids.take(ids.len() as int) =~= ids);
    let done = folders::tombstoned(moved, folder_id, later_ms);
    assert(v.folders.dom().contains(folder_id));
    assert(done.folders.dom() =~= v.folders.dom());
    assert forall|k: Seq<char>|
        #![trigger done.folders.contains_key(k)]
        done.folders.contains_key(k) && k != folder_id implies {
        &&& done.folders[k].deleted_locally == v.folders[k].deleted_locally
        &&& folders::parent_of(done.folders, k) == if is_child(v.folders, k, folder_id) {
            home
        } else {
            folders::parent_of(v.folders, k)
        }
    } by {
        assert(done.folders.dom().contains(k) && v.folders.dom().contains(k));
        assert(begun.folders.dom().contains(k));
        assert(begun.folders.contains_key(k));
        assert(done.folders[k] == begun.folders[k]);
        assert(is_among(children, k) <==> is_child(v.folders, k, folder_id));
    }
    assert forall|k: Seq<char>| #[trigger] done.documents.contains_key(k) implies folder_of(done, k)
        == if folder_of(v, k) == Some(folder_id) {
        home
    } else {
        folder_of(v, k)
    } by {
        assert(moved.documents.contains_key(k));
        assert(moved.documents.dom().contains(k));
        assert(v.documents.dom().contains(k));
        assert(folder_of(done, k) == folder_of(moved, k));
        assert(ids.contains(k) <==> v.documents.contains_key(k) && folder_of(v, k) == Some(
            folder_id,
        ));
    }
}

proof fn lemma_live_entries(list: Seq<FolderRowView>)
    requires
        table::in_rank_order::<FolderRow>(list),
    ensures
        ({
            let entries = folders::live_entries(list);
            &&& forall|i: int|
                0 <= i < list.len() && !(#[trigger] list[i]).deleted_locally ==> entries.contains(
                    folders::folder_entry(list[i]),
                )
            &&& forall|n: int|
                0 <= n < entries.len() ==> exists|i: int|
                    0 <= i < list.len() && !(#[trigger] list[i]).deleted_locally
                        && folders::folder_entry(list[i]) == (#[trigger] entries[n])
            &&& forall|n: int, m: int|
                0 <= n < m < entries.len() ==> shown_before(
                    #[trigger] entries[n],
                    #[trigger] entries[m],
                )
        }),
    decreases list.len(),
{
    if list.len() > 0 {
        let init = list.drop_last();
        assert forall|i: int, j: int| 0 <= i < j < init.len() implies FolderRow::precedes(
            #[trigger] init[i],
            #[trigger] init[j],
        ) by {
            assert(FolderRow::precedes(list[i], list[j]));
        }
        lemma_live_entries(init);
        let rest = folders::live_entries(init);
        let entries = folders::live_entries(list);
        assert forall|i: int|
            0 <= i < list.len() && !(#[trigger] list[i]).deleted_locally implies entries.contains(
            folders::folder_entry(list[i]),
        ) by {
            if i < init.len() {
                assert(init[i] == list[i]);
                let n = choose|n: int|
                    0 <= n < rest.len() && rest[n] == folders::folder_entry(init[i]);
                assert(entries[n] == rest[n]);
            } else {
                assert(entries[rest.len() as int] == folders::folder_entry(list[i]));
            }
        }
        assert forall|n: int| 0 <= n < entries.len() implies exists|i: int|
            0 <= i < list.len() && !(#[trigger] list[i]).deleted_locally && folders::folder_entry(
                list[i],
            ) == (#[trigger] entries[n]) by {
            if n < rest.len() {
                assert(entries[n] == rest[n]);
                let i = choose|i: int|
                    0 <= i < init.len() && !(#[trigger] init[i]).deleted_locally
                        && folders::folder_entry(init[i]) == rest[n];
                assert(list[i] == init[i]);
            } else {
                assert(list[list.len() - 1] == list.last());
            }
        }
        assert forall|n: int, m: int| 0 <= n < m < entries.len() implies shown_before(
            #[trigger] entries[n],
            #[trigger] entries[m],
        ) by {
            assert(entries[n] == rest[n]);
            if m < rest.len() {
                assert(entries[m] == rest[m]);
            } else {
                let i = choose|i: int|
                    0 <= i < init.len() && !(#[trigger] init[i]).deleted_locally
                        && folders::folder_entry(init[i]) == rest[n];
                assert(FolderRow::precedes(list[i], list[list.len() - 1]));
            }
        }
    }
}

/// Whether the listing shows one folder before another: by position, then by name, then by
/// identifier.
pub open spec fn shown_before(a: FolderEntryView, b: FolderEntryView) -> bool {
    let (x, y) = (rows::ordinal(a.sort_index), rows::ordinal(b.sort_index));
    x < y || (x == y && (text::lex_less(a.visible_name, b.visible_name) || (a.visible_name
        == b.visible_name && text::lex_less(a.folder_id, b.folder_id))))
}

/// The listing shows every folder that is no tombstone, and nothing else, in the order of the
/// positions, then the names, then the identifiers.
pub proof fn listing_shows_the_folders(v: LibraryView)
    requires
        is_valid(v),
    ensures
        ({
            let list = folders::folder_listing(v);
            &&& forall|n: int, m: int|
                0 <= n < m < list.len() ==> shown_before(#[trigger] list[n], #[trigger] list[m])
            &&& forall|k: Seq<char>| #[trigger]
                v.folders.contains_key(k) && !v.folders[k].deleted_locally ==> list.contains(
                    folders::folder_entry(v.folders[k]),
                )
            &&& forall|n: int|
                0 <= n < list.len() ==> {
                    let e = #[trigger] list[n];
                    v.folders.contains_key(e.folder_id) && !v.folders[e.folder_id].deleted_locally
                        && e == folders::folder_entry(v.folders[e.folder_id])
                }
        }),
{
    let ranked = table::ranked::<FolderRow>(v.folders);
    let list = folders::folder_listing(v);
    lemma_live_entries(ranked);
    assert forall|k: Seq<char>| #[trigger]
        v.folders.contains_key(k) && !v.folders[k].deleted_locally implies list.contains(
        folders::folder_entry(v.folders[k]),
    ) by {
        let row = v.folders[k];
        assert(FolderRow::key_of(row) == k);
        assert(ranked.contains(row));
        let i = choose|i: int| 0 <= i < ranked.len() && ranked[i] == row;
        assert(!ranked[i].deleted_locally);
    }
    assert forall|n: int| 0 <= n < list.len() implies {
        let e = #[trigger] list[n];
        v.folders.contains_key(e.folder_id) && !v.folders[e.folder_id].deleted_locally && e
            == folders::folder_entry(v.folders[e.folder_id])
    } by {
        let i = choose|i: int|
            0 <= i < ranked.len() && !(#[trigger] ranked[i]).deleted_locally
                && folders::folder_entry(ranked[i]) == list[n];
        assert(ranked.contains(ranked[i]));
    }
}

proof fn lemma_archived_entries(v: LibraryView, list: Seq<ArchiveRowView>)
    requires
        forall|i: int|
            0 <= i < list.len() ==> hash::is_hex_digest((#[trigger] list[i]).manifest_hash),
    ensures
        archive::archived_entries(v, list) matches Ok(entries) && entries.len() == list.len()
            && forall|i: int|
            0 <= i < list.len() ==> archive::archived_entry(v, list[i]) == Ok::<
                ArchivedView,
                ErrorView,
            >(#[trigger] entries[i]),
    decreases list.len(),
{
    if list.len() > 0 {
        let init = list.drop_last();
        assert forall|i: int| 0 <= i < init.len() implies hash::is_hex_digest(
            (#[trigger] init[i]).manifest_hash,
        ) by {
            assert(init[i] == list[i]);
        }
        lemma_archived_entries(v, init);
        assert(hash::is_hex_digest(list[list.len() - 1].manifest_hash));
        let entries = archive::archived_entries(v, list)->Ok_0;
        assert forall|i: int| 0 <= i < list.len() implies archive::archived_entry(v, list[i])
            == Ok::<ArchivedView, ErrorView>(#[trigger] entries[i]) by {
            if i < init.len() {
                assert(init[i] == list[i]);
                assert(entries[i] == archive::archived_entries(v, init)->Ok_0[i]);
            }
        }
    }
}

/// The archive shows every archived document once and nothing else, newest first, and those of
/// one moment in ascending order of the identifiers.
pub proof fn listing_shows_the_archive(v: LibraryView)
    requires
        is_valid(v),
        forall|k: Seq<char>| #[trigger]
            v.archived.contains_key(k) ==> hash::is_hex_digest(v.archived[k].manifest_hash),
    ensures
        archive::archive_listing(v) matches Ok(list) && {
            &&& forall|i: int, j: int|
                0 <= i < j < list.len() ==> {
                    let (a, b) = (#[trigger] list[i], #[trigger] list[j]);
                    text::lex_less(b.archived_at, a.archived_at) || (a.archived_at == b.archived_at
                        && text::lex_less(a.document_id, b.document_id))
                }
            &&& forall|k: Seq<char>| #[trigger]
                v.archived.contains_key(k) <==> exists|i: int|
                    0 <= i < list.len() && (#[trigger] list[i]).document_id == k
            &&& forall|i: int|
                0 <= i < list.len() ==> archive::archived_entry(
                    v,
                    v.archived[(#[trigger] list[i]).document_id],
                ) == Ok::<ArchivedView, ErrorView>(list[i])
        },
{
    let ranked = table::ranked::<ArchiveRow>(v.archived);
    assert forall|i: int| 0 <= i < ranked.len() implies v.archived.contains_key(
        (#[trigger] ranked[i]).document_id,
    ) && v.archived[ranked[i].document_id] == ranked[i] by {
        assert(ranked.contains(ranked[i]));
        assert(ArchiveRow::key_of(ranked[i]) == ranked[i].document_id);
    }
    lemma_archived_entries(v, ranked);
    let list = archive::archive_listing(v)->Ok_0;
    assert forall|i: int, j: int| 0 <= i < j < list.len() implies {
        let (a, b) = (#[trigger] list[i], #[trigger] list[j]);
        text::lex_less(b.archived_at, a.archived_at) || (a.archived_at == b.archived_at
            && text::lex_less(a.document_id, b.document_id))
    } by {
        assert(ArchiveRow::precedes(ranked[i], ranked[j]));
    }
    assert forall|k: Seq<char>| #[trigger] v.archived.contains_key(k) <==> exists|i: int|
        0 <= i < list.len() && (#[trigger] list[i]).document_id == k by {
        if v.archived.contains_key(k) {
            let row = v.archived[k];
            assert(ArchiveRow::key_of(row) == k);
            assert(ranked.contains(row));
            let i = choose|i: int| 0 <= i < ranked.len() && ranked[i] == row;
            assert(list[i].document_id == k);
        }
        if exists|i: int| 0 <= i < list.len() && (#[trigger] list[i]).document_id == k {
            let i = choose|i: int| 0 <= i < list.len() && (#[trigger] list[i]).document_id == k;
            assert(v.archived.contains_key(ranked[i].document_id));
        }
    }
}

} // verus!
