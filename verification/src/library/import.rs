//! Import of PDF and EPUB files.

use vstd::prelude::*;

use crate::blob::{PutOutcome, PutResult};
use crate::error::CoreError;
use crate::hash;
use crate::hash::Sha256Hex;
use crate::json;
use crate::library::documents;
use crate::library::folders;
use crate::library::types::{DocumentSummary, Source, SummaryView};
use crate::library::versions;
use crate::library::{Library, LibraryView};
use crate::manifest;
use crate::manifest::{FileView, Manifest, ManifestFile, ManifestView};
use crate::text;

verus! {

/// What kind of file is imported.
#[derive(Debug, Clone, Copy, PartialEq, Eq, Structural)]
pub enum ImportKind {
    Pdf,
    Epub,
}

/// The kind that a file extension stands for, in any mix of cases.
pub open spec fn kind_of_extension(ext: Seq<char>) -> Option<ImportKind> {
    if text::lowered(ext) == "pdf"@ {
        Some(ImportKind::Pdf)
    } else if text::lowered(ext) == "epub"@ {
        Some(ImportKind::Epub)
    } else {
        None
    }
}

/// The file extension of a kind.
pub open spec fn extension_text(kind: ImportKind) -> Seq<char> {
    match kind {
        ImportKind::Pdf => "pdf"@,
        ImportKind::Epub => "epub"@,
    }
}

/// The document type of a kind.
pub open spec fn doc_type_text(kind: ImportKind) -> Seq<char> {
    match kind {
        ImportKind::Pdf => "DocumentType.Pdf"@,
        ImportKind::Epub => "DocumentType.Epub"@,
    }
}

/// The fields that no import can do without.
pub open spec fn common_content(kind: ImportKind) -> Map<Seq<char>, serde_json::Value> {
    Map::<Seq<char>, serde_json::Value>::empty().insert(
        "fileType"@,
        json::string_value(extension_text(kind)),
    ).insert("pageCount"@, json::number_value(0)).insert(
        "lastOpenedPage"@,
        json::number_value(0),
    ).insert("lineHeight"@, json::integer_value((-1) as i64)).insert("margins"@, json::number_value(100)).insert(
        "orientation"@,
        json::string_value("portrait"@),
    ).insert("textScale"@, json::number_value(1)).insert(
        "extraMetadata"@,
        json::object_value(Map::empty()),
    )
}

/// The transform that leaves a page as it is.
pub open spec fn identity_transform() -> Map<Seq<char>, serde_json::Value> {
    Map::<Seq<char>, serde_json::Value>::empty().insert("m11"@, json::fractional_value(1)).insert(
        "m12"@,
        json::fractional_value(0),
    ).insert("m13"@, json::fractional_value(0)).insert("m21"@, json::fractional_value(0)).insert(
        "m22"@,
        json::fractional_value(1),
    ).insert("m23"@, json::fractional_value(0)).insert("m31"@, json::fractional_value(0)).insert(
        "m32"@,
        json::fractional_value(0),
    ).insert("m33"@, json::fractional_value(1))
}

/// The content description of a new document: the few fields that the tablet needs. It
/// fills in the rest when the document is first opened.
pub open spec fn content_of(kind: ImportKind) -> serde_json::Value {
    json::object_value(
        match kind {
            ImportKind::Pdf => common_content(kind).insert(
                "transform"@,
                json::object_value(identity_transform()),
            ),
            ImportKind::Epub => common_content(kind),
        },
    )
}

proof fn lemma_content_keys_differ()
    ensures
        "fileType"@.len() == 8,
        "pageCount"@.len() == 9 && "pageCount"@[0] == 'p',
        "lastOpenedPage"@.len() == 14,
        "lineHeight"@.len() == 10,
        "margins"@.len() == 7,
        "orientation"@.len() == 11,
        "textScale"@.len() == 9 && "textScale"@[0] == 't' && "textScale"@[1] == 'e',
        "extraMetadata"@.len() == 13,
        "transform"@.len() == 9 && "transform"@[0] == 't' && "transform"@[1] == 'r',
{
    reveal_strlit("fileType");
    reveal_strlit("pageCount");
    reveal_strlit("lastOpenedPage");
    reveal_strlit("lineHeight");
    reveal_strlit("margins");
    reveal_strlit("orientation");
    reveal_strlit("textScale");
    reveal_strlit("extraMetadata");
    reveal_strlit("transform");
}

proof fn lemma_metadata_keys_differ()
    ensures
        "visibleName"@.len() == 11,
        "type"@.len() == 4,
        "parent"@.len() == 6 && "parent"@[0] == 'p' && "parent"@[1] == 'a',
        "lastModified"@.len() == 12,
        "lastOpened"@.len() == 10,
        "lastOpenedPage"@.len() == 14,
        "version"@.len() == 7 && "version"@[0] == 'v',
        "pinned"@.len() == 6 && "pinned"@[0] == 'p' && "pinned"@[1] == 'i',
        "synced"@.len() == 6 && "synced"@[0] == 's',
        "modified"@.len() == 8,
        "deleted"@.len() == 7 && "deleted"@[0] == 'd',
        "metadatamodified"@.len() == 16,
{
    reveal_strlit("visibleName");
    reveal_strlit("type");
    reveal_strlit("parent");
    reveal_strlit("lastModified");
    reveal_strlit("lastOpened");
    reveal_strlit("lastOpenedPage");
    reveal_strlit("version");
    reveal_strlit("pinned");
    reveal_strlit("synced");
    reveal_strlit("modified");
    reveal_strlit("deleted");
    reveal_strlit("metadatamodified");
}

impl ImportKind {
    /// The kind that a file extension stands for, in any mix of cases.
    pub fn from_extension(ext: &str) -> (r: Option<Self>)
        ensures
            r == kind_of_extension(ext@),
    {
        if text::equals_lowered(ext, "pdf") {
            Some(ImportKind::Pdf)
        } else if text::equals_lowered(ext, "epub") {
            Some(ImportKind::Epub)
        } else {
            None
        }
    }

    /// The file extension of the kind.
    pub fn extension(self) -> (r: &'static str)
        ensures
            r@ == extension_text(self),
    {
        match self {
            ImportKind::Pdf => "pdf",
            ImportKind::Epub => "epub",
        }
    }

    /// The document type of the kind.
    pub fn doc_type(self) -> (r: &'static str)
        ensures
            r@ == doc_type_text(self),
    {
        match self {
            ImportKind::Pdf => "DocumentType.Pdf",
            ImportKind::Epub => "DocumentType.Epub",
        }
    }

    /// The content description of a new document.
    pub fn content_json(self) -> (v: serde_json::Value)
        ensures
            v == content_of(self),
            json::text_field(v, "fileType"@) == Some(
                match self {
                    ImportKind::Pdf => "pdf"@,
                    ImportKind::Epub => "epub"@,
                },
            ),
            json::count_field(v, "pageCount"@) == Some(0u64),
            json::count_field(v, "lastOpenedPage"@) == Some(0u64),
            json::field(v, "lineHeight"@) == Some(json::integer_value((-1) as i64)),
            json::count_field(v, "margins"@) == Some(100u64),
            json::text_field(v, "orientation"@) == Some("portrait"@),
            json::count_field(v, "textScale"@) == Some(1u64),
            json::field(v, "extraMetadata"@) is Some,
            json::field(v, "transform"@) is Some <==> self == ImportKind::Pdf,
    {
        proof {
            lemma_content_keys_differ();
        }
        let mut v = json::empty_object();
        json::insert(&mut v, "fileType", json::string(self.extension()));
        json::insert(&mut v, "pageCount", json::number(0));
        json::insert(&mut v, "lastOpenedPage", json::number(0));
        json::insert(&mut v, "lineHeight", json::integer(-1));
        json::insert(&mut v, "margins", json::number(100));
        json::insert(&mut v, "orientation", json::string("portrait"));
        json::insert(&mut v, "textScale", json::number(1));
        json::insert(&mut v, "extraMetadata", json::empty_object());
        match self {
            ImportKind::Pdf => {
                let mut transform = json::empty_object();
                json::insert(&mut transform, "m11", json::fractional(1));
                json::insert(&mut transform, "m12", json::fractional(0));
                json::insert(&mut transform, "m13", json::fractional(0));
                json::insert(&mut transform, "m21", json::fractional(0));
                json::insert(&mut transform, "m22", json::fractional(1));
                json::insert(&mut transform, "m23", json::fractional(0));
                json::insert(&mut transform, "m31", json::fractional(0));
                json::insert(&mut transform, "m32", json::fractional(0));
                json::insert(&mut transform, "m33", json::fractional(1));
                json::insert(&mut v, "transform", transform);
            },
            ImportKind::Epub => {},
        }
        v
    }
}

/// The extension of a kind stands for that kind.
pub proof fn extension_names_its_kind(kind: ImportKind)
    ensures
        kind_of_extension(extension_text(kind)) == Some(kind),
{
    reveal_strlit("pdf");
    reveal_strlit("epub");
    assert(text::lowered("pdf"@) =~= "pdf"@);
    assert(text::lowered("epub"@) =~= "epub"@);
    assert("pdf"@.len() != "epub"@.len());
}

/// The metadata of an imported document.
pub open spec fn import_fields(name: Seq<char>, parent: Option<Seq<char>>, now_ms: i64) -> Map<
    Seq<char>,
    serde_json::Value,
> {
    Map::<Seq<char>, serde_json::Value>::empty().insert("visibleName"@, json::string_value(name)).insert(
        "type"@,
        json::string_value("DocumentType"@),
    ).insert("parent"@, json::string_value(folders::parent_text(parent))).insert(
        "lastModified"@,
        json::string_value(text::decimal(now_ms as int)),
    ).insert("lastOpened"@, json::string_value(""@)).insert(
        "lastOpenedPage"@,
        json::number_value(0),
    ).insert("version"@, json::number_value(1)).insert("pinned"@, json::bool_value(false)).insert(
        "synced"@,
        json::bool_value(false),
    ).insert("modified"@, json::bool_value(false)).insert("deleted"@, json::bool_value(false)).insert(
        "metadatamodified"@,
        json::bool_value(false),
    )
}

/// A file of an imported document.
pub open spec fn import_file_view(path: Seq<char>, digest: Seq<char>, size: u64) -> FileView {
    FileView { path, sha256: digest, size, mode: 0o644, derived: false }
}

/// A document made from an imported file, not yet recorded.
#[derive(Debug)]
pub struct ImportedDocument {
    pub manifest: Manifest,
    /// The metadata file.
    pub metadata_bytes: Vec<u8>,
    /// The content description.
    pub content_bytes: Vec<u8>,
}

/// Whether `doc` is what importing a body comes to: the three files of the document, and a
/// manifest that refers to them.
pub open spec fn is_import(
    doc: ImportedDocument,
    document_id: Seq<char>,
    kind: ImportKind,
    name: Seq<char>,
    parent: Option<Seq<char>>,
    body_digest: Seq<char>,
    body_size: u64,
    now_ms: i64,
) -> bool {
    let content = content_of(kind);
    let metadata = json::object_value(import_fields(name, parent, now_ms));
    &&& doc.metadata_bytes@ == json::pretty_json(metadata)
    &&& doc.content_bytes@ == json::pretty_json(content)
    &&& doc.manifest.deep_view() == (ManifestView {
        document_id,
        doc_type: doc_type_text(kind),
        visible_name: name,
        parent: folders::nonempty(parent),
        metadata,
        content_meta: content,
        files: seq![
            import_file_view(
                document_id + ".metadata"@,
                hash::digest_hex(doc.metadata_bytes@),
                doc.metadata_bytes@.len() as u64,
            ),
            import_file_view(
                document_id + ".content"@,
                hash::digest_hex(doc.content_bytes@),
                doc.content_bytes@.len() as u64,
            ),
            import_file_view(
                document_id + "."@ + extension_text(kind),
                body_digest,
                body_size,
            ),
        ],
    })
}

/// Why a document could not be imported, and which blobs have to leave the disk again.
#[derive(Debug)]
pub struct ImportFailure {
    pub error: CoreError,
    pub unlink: Vec<Sha256Hex>,
}

/// The digests of those blobs, among the ones that were put, that were new.
pub open spec fn fresh_digests(puts: Seq<(Seq<char>, PutOutcome)>) -> Seq<Seq<char>>
    decreases puts.len(),
{
    if puts.len() == 0 {
        seq![]
    } else {
        let rest = fresh_digests(puts.drop_last());
        if puts.last().1 == PutOutcome::Stored {
            rest.push(puts.last().0)
        } else {
            rest
        }
    }
}

impl Library {
    /// Turns an imported file into a document: writes its metadata and content description,
    /// and a manifest for the three files. `body` is the imported file in the blob store,
    /// `document_id` a fresh identifier. The caller stores the two new files and the manifest
    /// and then calls [`Self::finalize_import`].
    pub fn import_file(
        document_id: &str,
        kind: ImportKind,
        visible_name: &str,
        parent_id: Option<&str>,
        body: &PutResult,
        now_ms: i64,
    ) -> (doc: ImportedDocument)
        ensures
            is_import(
                doc,
                document_id@,
                kind,
                visible_name@,
                parent_id.deep_view(),
                body.hash@,
                body.size,
                now_ms,
            ),
            ({
                let m = doc.manifest.deep_view();
                let place = match parent_id {
                    Some(p) => p@,
                    None => Seq::empty(),
                };
                &&& m.document_id == document_id@
                &&& m.visible_name == visible_name@
                &&& m.parent == (if place.len() == 0 {
                    None
                } else {
                    Some(place)
                })
                &&& json::text_field(m.metadata, "visibleName"@) == Some(visible_name@)
                &&& json::text_field(m.metadata, "parent"@) == Some(place)
                &&& json::text_field(m.metadata, "type"@) == Some("DocumentType"@)
                &&& json::text_field(m.metadata, "lastModified"@) == Some(
                    text::decimal(now_ms as int),
                )
                &&& json::text_field(m.metadata, "lastOpened"@) == Some(""@)
                &&& json::count_field(m.metadata, "lastOpenedPage"@) == Some(0u64)
                &&& json::count_field(m.metadata, "version"@) == Some(1u64)
                &&& json::flag_field(m.metadata, "pinned"@) == Some(false)
                &&& json::flag_field(m.metadata, "synced"@) == Some(false)
                &&& json::flag_field(m.metadata, "modified"@) == Some(false)
                &&& json::flag_field(m.metadata, "deleted"@) == Some(false)
                &&& json::flag_field(m.metadata, "metadatamodified"@) == Some(false)
                &&& doc.metadata_bytes@ == json::pretty_json(m.metadata)
                &&& doc.content_bytes@ == json::pretty_json(m.content_meta)
                &&& json::text_field(m.content_meta, "fileType"@) == Some(
                    match kind {
                        ImportKind::Pdf => "pdf"@,
                        ImportKind::Epub => "epub"@,
                    },
                )
                &&& m.doc_type == (match kind {
                    ImportKind::Pdf => "DocumentType.Pdf"@,
                    ImportKind::Epub => "DocumentType.Epub"@,
                })
                &&& m.files.len() == 3
                &&& m.files[0].path == document_id@ + ".metadata"@
                &&& m.files[0].sha256 == hash::digest_hex(doc.metadata_bytes@)
                &&& m.files[0].size == doc.metadata_bytes@.len()
                &&& m.files[1].path == document_id@ + ".content"@
                &&& m.files[1].sha256 == hash::digest_hex(doc.content_bytes@)
                &&& m.files[1].size == doc.content_bytes@.len()
                &&& m.files[2].path == document_id@ + "."@ + (match kind {
                    ImportKind::Pdf => "pdf"@,
                    ImportKind::Epub => "epub"@,
                })
                &&& m.files[2].sha256 == body.hash@
                &&& m.files[2].size == body.size
                &&& forall|i: int|
                    0 <= i < 3 ==> !(#[trigger] m.files[i]).derived && m.files[i].mode == 0o644
            }),
    {
        let place = match parent_id {
            Some(p) => p,
            None => "",
        };
        proof {
            reveal_strlit("");
            assert(""@ =~= Seq::empty());
        }
        proof {
            lemma_metadata_keys_differ();
        }
        let stamp = text::decimal_of(now_ms);
        let mut metadata = json::empty_object();
        json::insert(&mut metadata, "visibleName", json::string(visible_name));
        json::insert(&mut metadata, "type", json::string("DocumentType"));
        json::insert(&mut metadata, "parent", json::string(place));
        json::insert(&mut metadata, "lastModified", json::string(stamp.as_str()));
        json::insert(&mut metadata, "lastOpened", json::string(""));
        json::insert(&mut metadata, "lastOpenedPage", json::number(0));
        json::insert(&mut metadata, "version", json::number(1));
        json::insert(&mut metadata, "pinned", json::boolean(false));
        json::insert(&mut metadata, "synced", json::boolean(false));
        json::insert(&mut metadata, "modified", json::boolean(false));
        json::insert(&mut metadata, "deleted", json::boolean(false));
        json::insert(&mut metadata, "metadatamodified", json::boolean(false));
        let content = kind.content_json();
        let metadata_bytes = json::to_pretty(&metadata);
        let content_bytes = json::to_pretty(&content);
        let stem = text::concat2(document_id, ".");
        let mut manifest = Manifest::new(document_id, kind.doc_type(), visible_name);
        manifest.parent = match parent_id {
            Some(p) => if p.is_empty() {
                None
            } else {
                Some(p.to_owned())
            },
            None => None,
        };
        manifest.metadata = metadata;
        manifest.content_meta = content;
        let metadata_file = ManifestFile {
            path: text::concat2(document_id, ".metadata"),
            sha256: Sha256Hex::from_bytes(metadata_bytes.as_slice()),
            size: metadata_bytes.len() as u64,
            mode: 0o644,
            derived: false,
        };
        let content_file = ManifestFile {
            path: text::concat2(document_id, ".content"),
            sha256: Sha256Hex::from_bytes(content_bytes.as_slice()),
            size: content_bytes.len() as u64,
            mode: 0o644,
            derived: false,
        };
        let body_file = ManifestFile {
            path: text::concat2(stem.as_str(), kind.extension()),
            sha256: body.hash.clone(),
            size: body.size,
            mode: 0o644,
            derived: false,
        };
        let mut files: Vec<ManifestFile> = Vec::new();
        files.push(metadata_file);
        files.push(content_file);
        files.push(body_file);
        assert(files@ =~= seq![metadata_file, content_file, body_file]);
        assert(files.deep_view() =~= seq![
            metadata_file.deep_view(),
            content_file.deep_view(),
            body_file.deep_view(),
        ]);
        manifest.files = files;
        ImportedDocument { manifest, metadata_bytes, content_bytes }
    }

    /// Records an imported document whose blobs, the manifest among them, have been stored. If
    /// that fails, the blobs that were new are taken back, so that nothing of the import stays
    /// behind; those that were there before belong to other documents and are kept.
    pub fn finalize_import(
        &mut self,
        manifest: &Manifest,
        stored_manifest: &PutResult,
        body: &PutResult,
        metadata: &PutResult,
        content: &PutResult,
        visible_name: &str,
        now: &str,
    ) -> (r: Result<DocumentSummary, ImportFailure>)
        requires
            old(self).wf(),
            old(self)@.holds(stored_manifest.hash@, manifest.deep_view()),
            manifest.deep_view().size_fits(),
        ensures
            final(self).wf(),
            old(self)@.consistent() ==> final(self)@.consistent(),
            final(self).layout() == old(self).layout(),
            ({
                let v = old(self)@;
                let m = manifest.deep_view();
                let fresh = fresh_digests(
                    seq![
                        (body.hash@, body.outcome),
                        (metadata.hash@, metadata.outcome),
                        (content.hash@, content.outcome),
                        (stored_manifest.hash@, stored_manifest.outcome),
                    ],
                );
                match versions::record_version_result(v, m, stored_manifest.hash@) {
                    Ok(outcome) => {
                        &&& r matches Ok(summary) && summary.deep_view() == (SummaryView {
                            document_id: m.document_id,
                            visible_name: visible_name@,
                            doc_type: m.doc_type,
                            current_manifest: outcome.manifest_hash,
                            current_version_id: outcome.version_id,
                            last_observed_at: now@,
                            parent: m.parent,
                            size_bytes: manifest::total_size(m.files) as u64,
                            page_count: documents::page_count(m.content_meta),
                            has_unpushed_changes: true,
                        })
                        &&& final(self)@ == versions::recorded(
                            v,
                            m,
                            stored_manifest.hash@,
                            Source::Imported,
                            now@,
                        )
                    },
                    Err(e) => {
                        &&& r matches Err(failure) && failure.error.deep_view() == e
                            && failure.unlink.deep_view() == fresh
                        &&& final(self)@ == (LibraryView {
                            blobs: v.blobs.difference(fresh.to_set()),
                            manifests: v.manifests.remove_keys(fresh.to_set()),
                            ..v
                        })
                    },
                }
            }),
    {
        match self.record_version(manifest, &stored_manifest.hash, Source::Imported, now) {
            Ok(outcome) => Ok(
                DocumentSummary {
                    document_id: manifest.document_id.clone(),
                    visible_name: visible_name.to_owned(),
                    doc_type: manifest.doc_type.clone(),
                    current_manifest: outcome.manifest_hash,
                    current_version_id: outcome.version_id,
                    last_observed_at: now.to_owned(),
                    parent: text::copy_opt_string(&manifest.parent),
                    size_bytes: manifest.total_size(),
                    page_count: documents::read_page_count(&manifest.content_meta),
                    has_unpushed_changes: true,
                },
            ),
            Err(error) => {
                let mut unlink: Vec<Sha256Hex> = Vec::new();
                let ghost v = self@;
                proof {
                    assert(unlink.deep_view() =~= seq![]);
                    assert(v.blobs =~= v.blobs.difference(Seq::<Seq<char>>::empty().to_set()));
                    assert(v.manifests =~= v.manifests.remove_keys(Seq::<Seq<char>>::empty().to_set()));
                }
                self.take_back(body, &mut unlink, Ghost(v));
                let ghost one = seq![(body.hash@, body.outcome)];
                self.take_back(metadata, &mut unlink, Ghost(v));
                let ghost two = one.push((metadata.hash@, metadata.outcome));
                self.take_back(content, &mut unlink, Ghost(v));
                let ghost three = two.push((content.hash@, content.outcome));
                self.take_back(stored_manifest, &mut unlink, Ghost(v));
                let ghost four = three.push((stored_manifest.hash@, stored_manifest.outcome));
                proof {
                    reveal_with_fuel(fresh_digests, 5);
                    assert(one.drop_last() =~= seq![]);
                    assert(two.drop_last() =~= one);
                    assert(three.drop_last() =~= two);
                    assert(four.drop_last() =~= three);
                    assert(four =~= seq![
                        (body.hash@, body.outcome),
                        (metadata.hash@, metadata.outcome),
                        (content.hash@, content.outcome),
                        (stored_manifest.hash@, stored_manifest.outcome),
                    ]);
                }
                Err(ImportFailure { error, unlink })
            },
        }
    }

    /// Takes a blob back if it was new.
    fn take_back(&mut self, put: &PutResult, unlink: &mut Vec<Sha256Hex>, v: Ghost<LibraryView>)
        requires
            old(self).wf(),
            old(self)@ == (LibraryView {
                blobs: v@.blobs.difference(old(unlink).deep_view().to_set()),
                manifests: v@.manifests.remove_keys(old(unlink).deep_view().to_set()),
                ..v@
            }),
        ensures
            final(self).wf(),
            old(self)@.consistent() ==> final(self)@.consistent(),
            final(self).layout() == old(self).layout(),
            final(unlink).deep_view() == (if put.outcome == PutOutcome::Stored {
                old(unlink).deep_view().push(put.hash@)
            } else {
                old(unlink).deep_view()
            }),
            final(self)@ == (LibraryView {
                blobs: v@.blobs.difference(final(unlink).deep_view().to_set()),
                manifests: v@.manifests.remove_keys(final(unlink).deep_view().to_set()),
                ..v@
            }),
    {
        if put.outcome == PutOutcome::Stored {
            let ghost before = unlink.deep_view();
            self.forget_blob(&put.hash);
            unlink.push(put.hash.clone());
            proof {
                assert(unlink.deep_view() =~= before.push(put.hash@));
                crate::library::lemma_push_to_set(before, put.hash@);
                assert(self@.blobs =~= v@.blobs.difference(unlink.deep_view().to_set()));
                assert(self@.manifests =~= v@.manifests.remove_keys(unlink.deep_view().to_set()));
            }
        }
    }
}

/// Any way of writing an extension in small and capital letters stands for its kind, and no other
/// text stands for one.
pub proof fn extension_is_known_in_any_case(ext: Seq<char>)
    ensures
        text::lowered(ext) == "pdf"@ <==> kind_of_extension(ext) == Some(ImportKind::Pdf),
        text::lowered(ext) == "epub"@ <==> kind_of_extension(ext) == Some(ImportKind::Epub),
{
    reveal_strlit("pdf");
    reveal_strlit("epub");
    assert("pdf"@.len() != "epub"@.len());
}

/// Of the blobs that were put for an import, those that were new are named, and no others, in the
/// order in which they were put.
pub proof fn new_blobs_are_named(puts: Seq<(Seq<char>, PutOutcome)>)
    ensures
        forall|i: int|
            0 <= i < puts.len() && (#[trigger] puts[i]).1 == PutOutcome::Stored
                ==> fresh_digests(puts).contains(puts[i].0),
        forall|k: int|
            0 <= k < fresh_digests(puts).len() ==> exists|i: int|
                0 <= i < puts.len() && (#[trigger] puts[i]).1 == PutOutcome::Stored && puts[i].0
                    == #[trigger] fresh_digests(puts)[k],
    decreases puts.len(),
{
    if puts.len() > 0 {
        let init = puts.drop_last();
        let rest = fresh_digests(init);
        let all = fresh_digests(puts);
        new_blobs_are_named(init);
        assert forall|i: int|
            0 <= i < puts.len() && (#[trigger] puts[i]).1 == PutOutcome::Stored implies all.contains(
            puts[i].0,
        ) by {
            if i < init.len() {
                assert(init[i] == puts[i]);
                assert(rest.contains(puts[i].0));
                let k = choose|k: int| 0 <= k < rest.len() && rest[k] == puts[i].0;
                assert(all[k] == puts[i].0);
            } else {
                assert(all[all.len() - 1] == puts[i].0);
            }
        }
        assert forall|k: int| 0 <= k < all.len() implies exists|i: int|
            0 <= i < puts.len() && (#[trigger] puts[i]).1 == PutOutcome::Stored && puts[i].0
                == #[trigger] all[k] by {
            if k < rest.len() {
                assert(all[k] == rest[k]);
                let i = choose|i: int|
                    0 <= i < init.len() && (#[trigger] init[i]).1 == PutOutcome::Stored && init[i].0
                        == rest[k];
                assert(puts[i] == init[i]);
            } else {
                assert(puts[puts.len() - 1].0 == all[k]);
            }
        }
    }
}

/// What is written for an imported document says what it is: its name, the folder that it was put
/// into, the empty text at the root, that it is a document, when it was made, and that it is not
/// deleted.
pub proof fn imported_document_says_its_name_and_place(
    name: Seq<char>,
    parent: Option<Seq<char>>,
    now_ms: i64,
)
    ensures
        ({
            let fields = import_fields(name, parent, now_ms);
            &&& fields.contains_key("visibleName"@)
            &&& fields["visibleName"@] == json::string_value(name)
            &&& fields.contains_key("parent"@)
            &&& parent matches Some(p) ==> fields["parent"@] == json::string_value(p)
            &&& parent is None ==> fields["parent"@] == json::string_value(Seq::empty())
            &&& fields.contains_key("type"@)
            &&& fields["type"@] == json::string_value("DocumentType"@)
            &&& fields.contains_key("lastModified"@)
            &&& fields["lastModified"@] == json::string_value(text::decimal(now_ms as int))
            &&& fields.contains_key("deleted"@)
            &&& fields["deleted"@] == json::bool_value(false)
        }),
{
    lemma_metadata_keys_differ();
}

/// An imported document has three files: its metadata and its content description, each under the
/// digest of its bytes, and the imported file, under the digest that it was stored as; and the
/// manifest has the name and the folder that the document was given.
pub proof fn imported_document_has_its_files(
    doc: ImportedDocument,
    document_id: Seq<char>,
    kind: ImportKind,
    name: Seq<char>,
    parent: Option<Seq<char>>,
    body_digest: Seq<char>,
    body_size: u64,
    now_ms: i64,
)
    requires
        is_import(doc, document_id, kind, name, parent, body_digest, body_size, now_ms),
    ensures
        ({
            let m = doc.manifest.deep_view();
            &&& m.document_id == document_id
            &&& m.visible_name == name
            &&& parent matches Some(p) ==> p.len() > 0 ==> m.parent == Some(p)
            &&& parent is None || parent->0.len() == 0 ==> m.parent is None
            &&& m.files.len() == 3
            &&& m.files[0].path == document_id + ".metadata"@
            &&& m.files[0].sha256 == hash::digest_hex(doc.metadata_bytes@)
            &&& m.files[1].path == document_id + ".content"@
            &&& m.files[1].sha256 == hash::digest_hex(doc.content_bytes@)
            &&& kind is Pdf ==> m.files[2].path == document_id + "."@ + "pdf"@
            &&& kind is Epub ==> m.files[2].path == document_id + "."@ + "epub"@
            &&& m.files[2].sha256 == body_digest
            &&& m.files[2].size == body_size
            &&& doc.metadata_bytes@ == json::pretty_json(m.metadata)
            &&& doc.content_bytes@ == json::pretty_json(m.content_meta)
        }),
{
}

} // verus!
