//! Derived artefacts: files, such as transcripts, that the library attaches to a version
//! and never sends to the device.

use vstd::prelude::*;

use crate::error;
use crate::error::{CoreError, ErrorView};
use crate::hash;
use crate::hash::Sha256Hex;
use crate::library::documents;
use crate::library::types::{RecordOutcome, RecordView, Source};
use crate::library::versions;
use crate::library::{Library, LibraryView};
use crate::library;
use crate::manifest;
use crate::manifest::{FileView, Manifest, ManifestFile, ManifestView};
use crate::text;

verus! {

/// A derived artefact that has been attached to a manifest and waits to be recorded.
#[derive(Debug)]
pub struct DerivedArtefact {
    pub document_id: String,
    /// The manifest of the new version.
    pub manifest: Manifest,
    /// The manifest that was current before.
    pub prior_manifest: String,
}

/// The model of a [`DerivedArtefact`].
pub struct DerivedView {
    pub document_id: Seq<char>,
    pub manifest: ManifestView,
    pub prior_manifest: Seq<char>,
}

impl DeepView for DerivedArtefact {
    type V = DerivedView;

    open spec fn deep_view(&self) -> DerivedView {
        DerivedView {
            document_id: self.document_id@,
            manifest: self.manifest.deep_view(),
            prior_manifest: self.prior_manifest@,
        }
    }
}

/// Whether `i` is the first file at `path`.
pub open spec fn is_first_at(files: Seq<FileView>, path: Seq<char>, i: int) -> bool {
    &&& 0 <= i < files.len()
    &&& files[i].path == path
    &&& forall|j: int| 0 <= j < i ==> (#[trigger] files[j]).path != path
}

/// The files with `file` in place of the first one at its path, or after all others.
pub open spec fn with_file(files: Seq<FileView>, file: FileView) -> Seq<FileView> {
    if exists|i: int| is_first_at(files, file.path, i) {
        files.update(choose|i: int| is_first_at(files, file.path, i), file)
    } else {
        files.push(file)
    }
}

/// The file that a derived artefact becomes.
pub open spec fn derived_file(path: Seq<char>, bytes: Seq<u8>) -> FileView {
    FileView {
        path,
        sha256: hash::digest_hex(bytes),
        size: bytes.len() as u64,
        mode: 0o644,
        derived: true,
    }
}

/// What attaching a derived artefact to a document comes to.
pub open spec fn attached(
    v: LibraryView,
    document_id: Seq<char>,
    path: Seq<char>,
    bytes: Seq<u8>,
) -> Result<DerivedView, ErrorView> {
    if !text::has_prefix(path, "ocr/"@) {
        Err(
            ErrorView::InvalidArgument(
                "derived artefact path must live under `ocr/`, got "@ + text::quoted(path),
            ),
        )
    } else {
        match documents::edit_base(v, document_id, documents::PostActionView::Keep) {
            Err(e) => Err(e),
            Ok(m) => Ok(
                DerivedView {
                    document_id,
                    manifest: ManifestView {
                        files: with_file(m.files, derived_file(path, bytes)),
                        ..m
                    },
                    prior_manifest: v.documents[document_id].current_manifest,
                },
            ),
        }
    }
}

/// Whether the device is known to have the given manifest of a document.
pub open spec fn device_has(v: LibraryView, document_id: Seq<char>, manifest: Seq<char>) -> bool {
    v.sync.contains_key(document_id) && v.sync[document_id].last_seen_manifest == Some(manifest)
}

/// The library after a derived artefact has been recorded. If the device had everything
/// before, it is taken to have everything still, since the artefact is not meant for it;
/// otherwise what was unpushed stays unpushed.
pub open spec fn derived_recorded(
    v: LibraryView,
    artefact: DerivedView,
    digest: Seq<char>,
    now: Seq<char>,
) -> LibraryView {
    let id = artefact.document_id;
    let after = versions::recorded(v, artefact.manifest, digest, Source::Imported, now);
    if device_has(v, id, artefact.prior_manifest) {
        LibraryView { sync: versions::seen_on_device(after.sync, id, digest, now), ..after }
    } else {
        after
    }
}

/// What recording a derived artefact reports. The document has to be live, at the version that
/// the artefact was attached to.
pub open spec fn derived_result(v: LibraryView, artefact: DerivedView, digest: Seq<char>) -> Result<
    RecordView,
    ErrorView,
> {
    let id = artefact.document_id;
    if !v.documents.contains_key(id) {
        Err(ErrorView::NotFound("document "@ + id))
    } else if v.documents[id].current_manifest != artefact.prior_manifest {
        Err(documents::outdated(id))
    } else {
        match manifest::first_stray(artefact.manifest.files) {
            Some(path) => Err(manifest::stray_path(path)),
            None => versions::record_result(v, artefact.manifest.document_id, digest),
        }
    }
}

/// Whether `i` is the first file of a version that is a derived artefact at `path`.
pub open spec fn is_artefact(files: Seq<FileView>, path: Seq<char>, i: int) -> bool {
    &&& 0 <= i < files.len()
    &&& files[i].derived
    &&& files[i].path == path
    &&& forall|j: int| 0 <= j < i ==> !((#[trigger] files[j]).derived && files[j].path == path)
}

impl Library {
    /// Attaches a derived artefact to the current version of a document. The path has to lie
    /// under `ocr/`. The caller stores the artefact and the manifest as blobs and then records
    /// the result ([`Self::record_derived_artefact`]).
    pub fn attach_derived_artefact(&self, document_id: &str, path: &str, bytes: &[u8]) -> (r: Result<
        DerivedArtefact,
        CoreError,
    >)
        requires
            self.wf(),
        ensures
            error::outcome(r) == attached(self@, document_id@, path@, bytes@),
    {
        if !text::starts_with(path, "ocr/") {
            let shown = text::quote(path);
            return Err(
                CoreError::InvalidArgument(
                    text::concat2(
                        "derived artefact path must live under `ocr/`, got ",
                        shown.as_str(),
                    ),
                ),
            );
        }
        let row = match self.documents.get(document_id) {
            Some(row) => row,
            None => {
                return Err(CoreError::NotFound(text::concat2("document ", document_id)));
            },
        };
        let prior_manifest = row.current_manifest.clone();
        let digest = match self.digest_for(document_id, prior_manifest.as_str()) {
            Ok(digest) => digest,
            Err(e) => {
                return Err(e);
            },
        };
        let mut manifest = match self.manifest(&digest) {
            Ok(m) => m.clone(),
            Err(e) => {
                return Err(e);
            },
        };
        let file = ManifestFile {
            path: path.to_owned(),
            sha256: Sha256Hex::from_bytes(bytes),
            size: bytes.len() as u64,
            mode: 0o644,
            derived: true,
        };
        let ghost files = manifest.deep_view().files;
        let ghost added = file.deep_view();
        let mut i: usize = 0;
        while i < manifest.files.len()
            invariant
                i <= manifest.files.len(),
                files == manifest.files.deep_view(),
                forall|j: int| 0 <= j < i ==> (#[trigger] files[j]).path != path@,
            ensures
                i <= manifest.files.len(),
                i < manifest.files.len() ==> files[i as int].path == path@,
                forall|j: int| 0 <= j < i ==> (#[trigger] files[j]).path != path@,
            decreases manifest.files.len() - i,
        {
            if text::str_eq(manifest.files[i].path.as_str(), path) {
                break;
            }
            i = i + 1;
        }
        if i < manifest.files.len() {
            manifest.files.set(i, file);
            proof {
                assert(manifest.files.deep_view() =~= files.update(i as int, added));
                assert(is_first_at(files, path@, i as int));
                let c = choose|c: int| is_first_at(files, added.path, c);
                assert(is_first_at(files, added.path, c));
                assert(c == i);
            }
        } else {
            manifest.files.push(file);
            assert(manifest.files.deep_view() =~= files.push(added));
        }
        Ok(DerivedArtefact { document_id: document_id.to_owned(), manifest, prior_manifest })
    }

    /// Records a derived artefact whose blobs have been stored. A document that was in sync
    /// with the device stays in sync. One that has changed since, or is no longer live, is left
    /// as it is.
    pub fn record_derived_artefact(
        &mut self,
        artefact: &DerivedArtefact,
        manifest_hash: &Sha256Hex,
        now: &str,
    ) -> (r: Result<RecordOutcome, CoreError>)
        requires
            old(self).wf(),
            old(self)@.holds(manifest_hash@, artefact.manifest.deep_view()),
        ensures
            final(self).wf(),
            old(self)@.consistent() && artefact.manifest.document_id@ == artefact.document_id@
                ==> final(self)@.consistent(),
            final(self).layout() == old(self).layout(),
            error::outcome(r) == derived_result(old(self)@, artefact.deep_view(), manifest_hash@),
            final(self)@ == (if r is Ok {
                derived_recorded(old(self)@, artefact.deep_view(), manifest_hash@, now@)
            } else {
                old(self)@
            }),
    {
        let id = artefact.document_id.as_str();
        match self.documents.get(id) {
            None => {
                return Err(CoreError::NotFound(text::concat2("document ", id)));
            },
            Some(row) => if !text::str_eq(
                row.current_manifest.as_str(),
                artefact.prior_manifest.as_str(),
            ) {
                return Err(
                    CoreError::InvalidArgument(
                        text::concat3("document ", id, " has changed since the edit began"),
                    ),
                );
            },
        }
        if let Err(e) = artefact.manifest.validate_paths() {
            return Err(e);
        }
        proof {
            if self@.consistent() && artefact.manifest.document_id@ == id@ {
                reveal(library::agree);
                assert(self@.documents.dom().contains(id@));
                versions::lemma_recorded_agrees(
                    self@,
                    artefact.deep_view().manifest,
                    manifest_hash@,
                    Source::Imported,
                    now@,
                );
            }
        }
        let in_sync = match self.sync.get(id) {
            Some(row) => match &row.last_seen_manifest {
                Some(seen) => text::str_eq(seen.as_str(), artefact.prior_manifest.as_str()),
                None => false,
            },
            None => false,
        };
        let outcome = match self.record_version_in_tx(
            &artefact.manifest,
            manifest_hash,
            Source::Imported,
            now,
        ) {
            Ok(outcome) => outcome,
            Err(e) => {
                return Err(e);
            },
        };
        if in_sync {
            self.set_last_seen(id, manifest_hash.as_str(), now);
        }
        Ok(outcome)
    }

    /// Finds a derived artefact of a version: the digest of the blob that the caller has to
    /// read, or `None` if the version has no such artefact.
    pub fn read_derived_artefact(&self, version_id: i64, path: &str) -> (r: Result<
        Option<Sha256Hex>,
        CoreError,
    >)
        requires
            self.wf(),
        ensures
            match versions::version_lookup(self@, version_id) {
                Err(e) => r matches Err(x) && x.deep_view() == e,
                Ok(entry) => match self@.manifest(entry.manifest_hash) {
                    Err(e) => r matches Err(x) && x.deep_view() == e,
                    Ok(m) => match r {
                        Ok(Some(h)) => (exists|i: int|
                            is_artefact(m.files, path@, i) && h@ == m.files[i].sha256) && exists|
                            i: int,
                        |
                            0 <= i < m.files.len() && (#[trigger] m.files[i]).derived
                                && m.files[i].path == path@ && m.files[i].sha256 == h@,
                        Ok(None) => forall|i: int|
                            0 <= i < m.files.len() ==> !((#[trigger] m.files[i]).derived
                                && m.files[i].path == path@),
                        Err(_) => false,
                    },
                },
            },
    {
        let entry = match self.get_version(version_id) {
            Ok(entry) => entry,
            Err(e) => {
                return Err(e);
            },
        };
        let m = match self.manifest(&entry.manifest_hash) {
            Ok(m) => m,
            Err(e) => {
                return Err(e);
            },
        };
        let ghost files = m.deep_view().files;
        let mut i: usize = 0;
        while i < m.files.len()
            invariant
                i <= m.files.len(),
                files == m.files.deep_view(),
                versions::version_lookup(self@, version_id) == Ok::<_, ErrorView>(entry.deep_view()),
                self@.manifest(entry.manifest_hash@) == Ok::<ManifestView, ErrorView>(m.deep_view()),
                forall|j: int|
                    0 <= j < i ==> !((#[trigger] files[j]).derived && files[j].path == path@),
            decreases m.files.len() - i,
        {
            if m.files[i].derived && text::str_eq(m.files[i].path.as_str(), path) {
                assert(is_artefact(files, path@, i as int));
                return Ok(Some(m.files[i].sha256.clone()));
            }
            i = i + 1;
        }
        Ok(None)
    }
}

/// An artefact becomes a file under its path, with its digest and its size, that is marked as
/// derived.
pub proof fn artefact_becomes_a_derived_file(path: Seq<char>, bytes: Seq<u8>)
    ensures
        derived_file(path, bytes).path == path,
        derived_file(path, bytes).sha256 == hash::digest_hex(bytes),
        bytes.len() <= u64::MAX ==> derived_file(path, bytes).size == bytes.len(),
        derived_file(path, bytes).mode == 0o644,
        derived_file(path, bytes).derived,
{
}

/// Attaching an artefact leaves everything of the manifest but its files as it was, and remembers
/// the manifest that was current.
pub proof fn artefact_leaves_the_manifest(
    v: LibraryView,
    document_id: Seq<char>,
    path: Seq<char>,
    bytes: Seq<u8>,
)
    ensures
        attached(v, document_id, path, bytes) matches Ok(artefact) ==> {
            let before = v.manifest(v.documents[document_id].current_manifest)->Ok_0;
            &&& v.documents.contains_key(document_id)
            &&& artefact.document_id == document_id
            &&& artefact.prior_manifest == v.documents[document_id].current_manifest
            &&& artefact.manifest.document_id == before.document_id
            &&& artefact.manifest.visible_name == before.visible_name
            &&& artefact.manifest.doc_type == before.doc_type
            &&& artefact.manifest.parent == before.parent
            &&& artefact.manifest.metadata == before.metadata
            &&& artefact.manifest.content_meta == before.content_meta
            &&& before.files.len() <= artefact.manifest.files.len() <= before.files.len() + 1
        },
{
}

} // verus!
