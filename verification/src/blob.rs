//! The content-addressed blob store.
//!
//! A blob lives under `blobs/<aa>/<bb>/<sha256>`, where `<aa>` and `<bb>` are the
//! first two pairs of digits of its digest. Blobs are immutable: storing the same
//! bytes twice changes nothing. A [`BlobStore`] knows which digests are filed on
//! disk; reading and writing the files is left to its caller.

use vstd::prelude::*;

use crate::error::{CoreError, ErrorView};
use crate::hash;
use crate::hash::Sha256Hex;
use crate::paths;
use crate::paths::{DirPath, LibraryPaths};
use crate::table::Table;
use crate::text;

verus! {

/// What became of a blob that was handed to the store.
#[derive(Debug, Clone, Copy, PartialEq, Eq, Structural)]
pub enum PutOutcome {
    /// The blob is new and has to be written.
    Stored,
    /// The blob was there already; the bytes are discarded.
    Deduplicated,
}

/// What becomes of a blob that is handed to a store with the given digests on file.
pub open spec fn put_outcome(present: Set<Seq<char>>, digest: Seq<char>) -> PutOutcome {
    if present.contains(digest) {
        PutOutcome::Deduplicated
    } else {
        PutOutcome::Stored
    }
}

/// The digest and length of a blob, and whether it was new.
#[derive(Debug)]
pub struct PutResult {
    pub hash: Sha256Hex,
    pub size: u64,
    pub outcome: PutOutcome,
}

/// The blobs of a library.
pub struct BlobStore {
    paths: LibraryPaths,
    present: Table<String>,
}

/// What reading the blob `digest` yields when the file there holds `on_disk`, or does
/// not exist.
pub open spec fn read_outcome(digest: Seq<char>, on_disk: Option<Seq<u8>>) -> Result<
    Seq<u8>,
    ErrorView,
> {
    match on_disk {
        None => Err(ErrorView::MissingBlob(digest)),
        Some(bytes) => if hash::digest_hex(bytes) == digest {
            Ok(bytes)
        } else {
            Err(ErrorView::BlobCorrupt { expected: digest, actual: hash::digest_hex(bytes) })
        },
    }
}

impl BlobStore {
    /// The digests on file.
    pub closed spec fn view(&self) -> Set<Seq<char>> {
        self.present@.dom()
    }

    /// The layout of the library.
    pub closed spec fn layout(&self) -> LibraryPaths {
        self.paths
    }

    /// Whether the index is in order.
    pub closed spec fn wf(&self) -> bool {
        self.present.wf()
    }

    /// A store in which nothing is filed yet.
    pub fn new(paths: LibraryPaths) -> (s: Self)
        ensures
            s.wf(),
            s.layout() == paths,
            s@ == Set::<Seq<char>>::empty(),
    {
        let s = BlobStore { paths, present: Table::new() };
        assert(s@ =~= Set::<Seq<char>>::empty());
        s
    }

    /// The layout of the library.
    pub fn paths(&self) -> (p: &LibraryPaths)
        ensures
            *p == self.layout(),
    {
        &self.paths
    }

    /// Whether a blob is filed under `hash`.
    pub fn has(&self, hash: &Sha256Hex) -> (r: bool)
        requires
            self.wf(),
        ensures
            r == self@.contains(hash@),
    {
        self.present.contains(hash.as_str())
    }

    /// Where the blob with the given digest is kept.
    pub fn path_for(&self, hash: &Sha256Hex) -> (r: String)
        ensures
            r@ == paths::blob_place(self.layout().blobs@, hash@),
    {
        self.paths.blob_path(hash)
    }

    /// Takes note of a blob that is already on disk.
    pub fn note(&mut self, hash: &Sha256Hex)
        requires
            old(self).wf(),
        ensures
            final(self).wf(),
            final(self).layout() == old(self).layout(),
            final(self)@ == old(self)@.insert(hash@),
    {
        self.present.put(hash.to_hex());
        assert(self@ =~= old(self)@.insert(hash@));
    }

    /// Forgets a blob that has left the disk.
    pub fn forget(&mut self, hash: &Sha256Hex)
        requires
            old(self).wf(),
        ensures
            final(self).wf(),
            final(self).layout() == old(self).layout(),
            final(self)@ == old(self)@.remove(hash@),
    {
        self.present.remove(hash.as_str());
        assert(self@ =~= old(self)@.remove(hash@));
    }

    /// Files a blob whose digest and length are known, as after a stream has been read
    /// to its end. The caller writes the file if, and only if, it is new.
    pub fn put_digest(&mut self, hash: Sha256Hex, size: u64) -> (r: PutResult)
        requires
            old(self).wf(),
        ensures
            final(self).wf(),
            final(self).layout() == old(self).layout(),
            final(self)@ == old(self)@.insert(hash@),
            r.hash@ == hash@,
            r.size == size,
            r.outcome == put_outcome(old(self)@, hash@),
    {
        let outcome = if self.has(&hash) {
            PutOutcome::Deduplicated
        } else {
            PutOutcome::Stored
        };
        self.note(&hash);
        PutResult { hash, size, outcome }
    }

    /// Files `bytes` under their digest. The caller writes the file if, and only if, it
    /// is new.
    pub fn put_bytes(&mut self, bytes: &[u8]) -> (r: PutResult)
        requires
            old(self).wf(),
        ensures
            final(self).wf(),
            final(self).layout() == old(self).layout(),
            final(self)@ == old(self)@.insert(hash::digest_hex(bytes@)),
            r.hash@ == hash::digest_hex(bytes@),
            r.size == bytes@.len(),
            r.outcome == put_outcome(old(self)@, hash::digest_hex(bytes@)),
    {
        let digest = Sha256Hex::from_bytes(bytes);
        self.put_digest(digest, bytes.len() as u64)
    }

    /// Accepts what the file of the blob `hash` holds, `None` if there is no such file.
    /// Bytes that no longer have the digest they are filed under are refused.
    pub fn read_to_vec(&self, hash: &Sha256Hex, on_disk: Option<Vec<u8>>) -> (r: Result<
        Vec<u8>,
        CoreError,
    >)
        ensures
            match r {
                Ok(bytes) => read_outcome(hash@, on_disk.deep_view()) == Ok::<Seq<u8>, ErrorView>(bytes@),
                Err(e) => read_outcome(hash@, on_disk.deep_view()) == Err::<Seq<u8>, ErrorView>(
                    e.deep_view(),
                ),
            },
    {
        match on_disk {
            None => Err(CoreError::MissingBlob(hash.to_hex())),
            Some(bytes) => {
                assert(bytes.deep_view() =~= bytes@);
                let actual = Sha256Hex::from_bytes(bytes.as_slice());
                if text::str_eq(actual.as_str(), hash.as_str()) {
                    Ok(bytes)
                } else {
                    Err(CoreError::BlobCorrupt { expected: hash.to_hex(), actual: actual.to_hex() })
                }
            },
        }
    }
}

/// Bytes that were put are what a read of their digest gives back.
pub proof fn read_gives_back_what_was_put(bytes: Seq<u8>)
    ensures
        read_outcome(hash::digest_hex(bytes), Some(bytes)) == Ok::<Seq<u8>, ErrorView>(bytes),
{
}

/// Every blob is kept once: what is put again is already there, and the store stays as it is.
pub proof fn second_put_stores_nothing(present: Set<Seq<char>>, digest: Seq<char>)
    ensures
        put_outcome(present.insert(digest), digest) == PutOutcome::Deduplicated,
        present.insert(digest).insert(digest) == present.insert(digest),
{
    assert(present.insert(digest).insert(digest) =~= present.insert(digest));
}

/// A read that succeeds yields bytes with the digest that was asked for, whatever the
/// disk holds.
pub proof fn read_is_never_tampered(digest: Seq<char>, on_disk: Option<Seq<u8>>)
    ensures
        read_outcome(digest, on_disk) matches Ok(bytes) ==> hash::digest_hex(bytes) == digest,
{
}

/// Every directory from `start` up to and including `root`, innermost first. Empty if
/// there is no start, or if it does not lie at or below `root`.
pub fn directories_to_fsync(start: Option<&DirPath>, root: &DirPath) -> (dirs: Vec<DirPath>)
    ensures
        match start {
            Some(s) if paths::lies_under(s.deep_view(), root.deep_view()) => {
                &&& dirs@.len() == s.names@.len() - root.names@.len() + 1
                &&& forall|i: int|
                    0 <= i < dirs@.len() ==> (#[trigger] dirs@[i]).deep_view() == (paths::DirView {
                        absolute: s.absolute,
                        names: s.deep_view().names.take(s.names@.len() - i),
                    })
            },
            _ => dirs@.len() == 0,
        },
        forall|i: int|
            0 <= i < dirs@.len() ==> paths::lies_under(
                (#[trigger] dirs@[i]).deep_view(),
                root.deep_view(),
            ),
{
    let mut dirs: Vec<DirPath> = Vec::new();
    if let Some(s) = start {
        if s.starts_with(root) {
            let mut n: usize = s.names.len();
            loop
                invariant
                    start == Some(s),
                    root.names@.len() <= n <= s.names@.len(),
                    paths::lies_under(s.deep_view(), root.deep_view()),
                    dirs@.len() == s.names@.len() - n,
                    forall|i: int|
                        0 <= i < dirs@.len() ==> (#[trigger] dirs@[i]).deep_view() == (
                        paths::DirView {
                            absolute: s.absolute,
                            names: s.deep_view().names.take(s.names@.len() - i),
                        }),
                    forall|i: int|
                        0 <= i < dirs@.len() ==> paths::lies_under(
                            (#[trigger] dirs@[i]).deep_view(),
                            root.deep_view(),
                        ),
                decreases n,
            {
                let dir = s.ancestor(n);
                assert(root.deep_view().names.is_prefix_of(s.deep_view().names.take(n as int)));
                dirs.push(dir);
                if n == root.names.len() {
                    return dirs;
                }
                n = n - 1;
            }
        }
    }
    dirs
}

/// A blob that is handed to the store is written exactly if it is not there yet.
pub proof fn only_new_blobs_are_written(present: Set<Seq<char>>, digest: Seq<char>)
    ensures
        put_outcome(present, digest) == PutOutcome::Stored <==> !present.contains(digest),
        put_outcome(present, digest) == PutOutcome::Deduplicated <==> present.contains(digest),
{
}

/// A blob whose file is gone is reported as missing; one whose file holds other bytes is reported
/// with the digest that was asked for and the one that was found.
pub proof fn unreadable_blobs_are_told_apart(digest: Seq<char>, bytes: Seq<u8>)
    ensures
        read_outcome(digest, None) == Err::<Seq<u8>, ErrorView>(ErrorView::MissingBlob(digest)),
        hash::digest_hex(bytes) != digest ==> read_outcome(digest, Some(bytes)) == Err::<
            Seq<u8>,
            ErrorView,
        >(ErrorView::BlobCorrupt { expected: digest, actual: hash::digest_hex(bytes) }),
{
}

} // verus!
