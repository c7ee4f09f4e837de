//! Upkeep: garbage collection, integrity checks, export, and going back to what the device
//! has.

use vstd::prelude::*;

use crate::error;
use crate::error::{CoreError, ErrorView};
use crate::hash;
use crate::hash::Sha256Hex;
use crate::json;
use crate::library::documents;
use crate::library::rows::{DocumentRow, DocumentRowView, FolderRow, FolderRowView, VersionRowView};
use crate::library::types::{GarbageCollectReport, ReconstructOptions, RevertReport, VerifyReport};
use crate::library::{Library, LibraryView};
use crate::library;
use crate::manifest;
use crate::manifest::FileView;
use crate::paths;
use crate::table;
use crate::table::{Row, Table};
use crate::text;

verus! {

/// How old a blob file is.
#[derive(Debug, Clone, Copy, PartialEq, Eq, Structural)]
pub enum BlobAge {
    /// The file could not be examined.
    Unreadable,
    /// The file system does not tell.
    Unknown,
    /// It was modified after the present moment; a sign of a clock that was set back.
    Future,
    /// Nanoseconds since it was modified.
    Nanos(u128),
}

/// What is known of the contents of a blob file.
#[derive(Debug)]
pub enum BlobContents {
    /// Nobody asked for them.
    NotRead,
    /// They could not be read.
    Unreadable,
    /// They have this digest.
    Digest(String),
}

/// A file below the blob directory.
#[derive(Debug)]
pub struct BlobFile {
    pub path: String,
    /// The file name, which for a blob is its digest.
    pub name: String,
    pub size: u64,
    pub age: BlobAge,
    pub contents: BlobContents,
}

/// Whether some version of the log needs the blob.
pub open spec fn is_live_blob(v: LibraryView, digest: Seq<char>) -> bool {
    exists|i: int|
        0 <= i < v.versions.len() && v.blob_refs.contains(
            (digest, (#[trigger] v.versions[i]).manifest_hash),
        )
}

/// Whether a blob file is old enough to be collected. A file that cannot be examined, or
/// that seems to come from the future, is kept.
pub open spec fn is_old_enough(age: BlobAge, grace_nanos: u128) -> bool {
    match age {
        BlobAge::Unreadable => false,
        BlobAge::Unknown => true,
        BlobAge::Future => false,
        BlobAge::Nanos(n) => n >= grace_nanos,
    }
}

/// The positions, among the first `n` files, of those that are to be deleted.
pub open spec fn garbage(v: LibraryView, files: Seq<BlobFile>, grace_nanos: u128, n: int) -> Seq<int>
    decreases n,
{
    if n <= 0 {
        seq![]
    } else {
        let rest = garbage(v, files, grace_nanos, n - 1);
        if !is_live_blob(v, files[n - 1].name@) && is_old_enough(files[n - 1].age, grace_nanos) {
            rest.push(n - 1)
        } else {
            rest
        }
    }
}

/// The grace period, in nanoseconds, of an ordinary garbage collection: one minute.
pub const DEFAULT_GRACE_NANOS: u128 = 60_000_000_000;

/// How many of the deletions went through.
pub open spec fn done_count(results: Seq<(u64, bool)>) -> nat
    decreases results.len(),
{
    if results.len() == 0 {
        0
    } else {
        done_count(results.drop_last()) + (if results.last().1 {
            1nat
        } else {
            0nat
        })
    }
}

/// The bytes that the deletions that went through freed.
pub open spec fn done_bytes(results: Seq<(u64, bool)>) -> nat
    decreases results.len(),
{
    if results.len() == 0 {
        0
    } else {
        done_bytes(results.drop_last()) + (if results.last().1 {
            results.last().0 as nat
        } else {
            0nat
        })
    }
}

proof fn lemma_done(results: Seq<(u64, bool)>, n: int)
    requires
        0 <= n <= results.len(),
    ensures
        done_count(results.take(n)) <= n,
        done_bytes(results.take(n)) <= done_bytes(results),
    decreases results.len(), n,
{
    if n == results.len() {
        assert(results.take(n) =~= results);
        if n > 0 {
            lemma_done(results, n - 1);
            assert(results.take(n).drop_last() =~= results.take(n - 1));
        }
    } else {
        lemma_done(results.drop_last(), n);
        assert(results.drop_last().take(n) =~= results.take(n));
    }
}

/// Sums up a garbage collection from the size of each deleted file and whether the deletion
/// went through.
pub fn collection_report(scanned: usize, results: &Vec<(u64, bool)>) -> (r: GarbageCollectReport)
    requires
        done_bytes(results@) <= u64::MAX,
    ensures
        r.scanned == scanned,
        r.deleted == done_count(results@),
        r.bytes_freed == done_bytes(results@),
        r.errors == results@.len() - done_count(results@),
{
    let mut deleted: usize = 0;
    let mut bytes_freed: u64 = 0;
    let mut errors: usize = 0;
    let mut i: usize = 0;
    assert(results@.take(0) =~= seq![]);
    while i < results.len()
        invariant
            i <= results.len(),
            done_bytes(results@) <= u64::MAX,
            deleted == done_count(results@.take(i as int)),
            bytes_freed == done_bytes(results@.take(i as int)),
            errors + deleted == i,
        decreases results.len() - i,
    {
        proof {
            lemma_done(results@, i + 1);
            assert(results@.take(i + 1).drop_last() =~= results@.take(i as int));
            assert(results@.take(i + 1).last() == results@[i as int]);
        }
        if results[i].1 {
            deleted = deleted + 1;
            bytes_freed = bytes_freed + results[i].0;
        } else {
            errors = errors + 1;
        }
        i = i + 1;
    }
    assert(results@.take(results@.len() as int) =~= results@);
    GarbageCollectReport { scanned, deleted, bytes_freed, errors }
}

/// The digests that the log refers to.
pub open spec fn logged_digests(versions: Seq<VersionRowView>) -> Set<Seq<char>> {
    Set::new(
        |d: Seq<char>|
            exists|i: int| 0 <= i < versions.len() && (#[trigger] versions[i]).manifest_hash == d,
    )
}

impl Library {
    /// The manifests that the log refers to.
    fn logged_manifests(&self) -> (set: Table<String>)
        requires
            self.wf(),
        ensures
            set.wf(),
            set@.dom() == logged_digests(self@.versions),
    {
        let ghost rows = self@.versions;
        let mut set: Table<String> = Table::new();
        let mut i: usize = 0;
        assert(set@.dom() =~= logged_digests(rows.take(0)));
        while i < self.versions.len()
            invariant
                set.wf(),
                rows == self.versions.deep_view(),
                i <= rows.len(),
                set@.dom() == logged_digests(rows.take(i as int)),
            decreases rows.len() - i,
        {
            set.put(self.versions[i].manifest_hash.clone());
            proof {
                let a = rows.take(i as int);
                let b = rows.take(i + 1);
                assert(b =~= a.push(rows[i as int]));
                let d = rows[i as int].manifest_hash;
                assert forall|x: Seq<char>| #[trigger] logged_digests(b).contains(x) == logged_digests(
                    a,
                ).insert(d).contains(x) by {
                    if logged_digests(b).contains(x) {
                        let k = choose|k: int| 0 <= k < b.len() && (#[trigger] b[k]).manifest_hash == x;
                        if k < i {
                            assert(a[k].manifest_hash == x);
                        }
                    }
                    if logged_digests(a).contains(x) {
                        let k = choose|k: int| 0 <= k < a.len() && (#[trigger] a[k]).manifest_hash == x;
                        assert(b[k].manifest_hash == x);
                    }
                    assert(b[i as int].manifest_hash == d);
                }
                assert(set@.dom() =~= logged_digests(b));
            }
            i = i + 1;
        }
        assert(rows.take(rows.len() as int) =~= rows);
        set
    }

    /// The blobs that some version of the log needs.
    fn live_blobs(&self) -> (set: Table<String>)
        requires
            self.wf(),
        ensures
            set.wf(),
            forall|d: Seq<char>| #[trigger] set@.contains_key(d) <==> is_live_blob(self@, d),
    {
        let manifests = self.logged_manifests();
        let ghost refs = self.blob_refs.deep_view();
        let mut set: Table<String> = Table::new();
        let mut i: usize = 0;
        while i < self.blob_refs.len()
            invariant
                self.wf(),
                manifests.wf(),
                manifests@.dom() == logged_digests(self@.versions),
                set.wf(),
                refs == self.blob_refs.deep_view(),
                i <= refs.len(),
                forall|d: Seq<char>| #[trigger]
                    set@.contains_key(d) <==> exists|k: int|
                        0 <= k < i && (#[trigger] refs[k]).0 == d && logged_digests(
                            self@.versions,
                        ).contains(refs[k].1),
            decreases refs.len() - i,
        {
            let r = &self.blob_refs[i];
            let ghost before = set@;
            if manifests.contains(r.manifest_hash.as_str()) {
                set.put(r.blob_hash.clone());
            }
            proof {
                assert(refs[i as int] == r.deep_view());
                assert forall|d: Seq<char>| #[trigger] set@.contains_key(d) <==> exists|k: int|
                    0 <= k < i + 1 && (#[trigger] refs[k]).0 == d && logged_digests(
                        self@.versions,
                    ).contains(refs[k].1) by {
                    if set@.contains_key(d) {
                        if before.contains_key(d) {
                            let k = choose|k: int|
                                0 <= k < i && (#[trigger] refs[k]).0 == d && logged_digests(
                                    self@.versions,
                                ).contains(refs[k].1);
                            assert(refs[k].0 == d);
                        } else {
                            assert(refs[i as int].0 == d);
                        }
                    }
                    if exists|k: int|
                        0 <= k < i + 1 && (#[trigger] refs[k]).0 == d && logged_digests(
                            self@.versions,
                        ).contains(refs[k].1) {
                        let k = choose|k: int|
                            0 <= k < i + 1 && (#[trigger] refs[k]).0 == d && logged_digests(
                                self@.versions,
                            ).contains(refs[k].1);
                        if k < i {
                            assert(before.contains_key(d));
                        }
                    }
                }
            }
            i = i + 1;
        }
        proof {
            assert forall|d: Seq<char>| #[trigger] set@.contains_key(d) <==> is_live_blob(self@, d) by {
                if set@.contains_key(d) {
                    let k = choose|k: int|
                        0 <= k < i && (#[trigger] refs[k]).0 == d && logged_digests(
                            self@.versions,
                        ).contains(refs[k].1);
                    let n = choose|n: int|
                        0 <= n < self@.versions.len() && (#[trigger] self@.versions[n]).manifest_hash
                            == refs[k].1;
                    assert(refs.contains(refs[k]));
                    assert(self@.blob_refs.contains((d, self@.versions[n].manifest_hash)));
                }
                if is_live_blob(self@, d) {
                    let n = choose|n: int|
                        0 <= n < self@.versions.len() && self@.blob_refs.contains(
                            (d, (#[trigger] self@.versions[n]).manifest_hash),
                        );
                    let pair = (d, self@.versions[n].manifest_hash);
                    assert(refs.contains(pair));
                    let k = choose|k: int| 0 <= k < refs.len() && refs[k] == pair;
                    assert(refs[k].0 == d);
                    assert(self@.versions[n].manifest_hash == refs[k].1);
                }
            }
        }
        set
    }

    /// Decides which of the blob files may be deleted: those that no version needs and that are
    /// older than the grace period. The caller deletes them and sums up with
    /// [`collection_report`].
    pub fn garbage_collect_with_grace(&self, files: &Vec<BlobFile>, grace_nanos: u128) -> (doomed: Vec<
        usize,
    >)
        requires
            self.wf(),
        ensures
            doomed@.len() == garbage(self@, files@, grace_nanos, files@.len() as int).len(),
            forall|k: int|
                0 <= k < doomed@.len() ==> (#[trigger] doomed@[k]) as int == garbage(
                    self@,
                    files@,
                    grace_nanos,
                    files@.len() as int,
                )[k],
            forall|k: int|
                0 <= k < doomed@.len() ==> (#[trigger] doomed@[k]) < files@.len() && !is_live_blob(
                    self@,
                    files@[doomed@[k] as int].name@,
                ),
    {
        let live = self.live_blobs();
        let mut doomed: Vec<usize> = Vec::new();
        let mut i: usize = 0;
        while i < files.len()
            invariant
                live.wf(),
                forall|d: Seq<char>| #[trigger] live@.contains_key(d) <==> is_live_blob(self@, d),
                i <= files.len(),
                doomed@.len() == garbage(self@, files@, grace_nanos, i as int).len(),
                forall|k: int|
                    0 <= k < doomed@.len() ==> (#[trigger] doomed@[k]) as int == garbage(
                        self@,
                        files@,
                        grace_nanos,
                        i as int,
                    )[k],
                forall|k: int|
                    0 <= k < doomed@.len() ==> (#[trigger] doomed@[k]) < files@.len()
                        && !is_live_blob(self@, files@[doomed@[k] as int].name@),
            decreases files.len() - i,
        {
            let file = &files[i];
            let old_enough = match file.age {
                BlobAge::Unreadable => false,
                BlobAge::Unknown => true,
                BlobAge::Future => false,
                BlobAge::Nanos(n) => n >= grace_nanos,
            };
            if !live.contains(file.name.as_str()) && old_enough {
                doomed.push(i);
            }
            i = i + 1;
        }
        doomed
    }

    /// As [`Self::garbage_collect_with_grace`], with a grace period of one minute.
    pub fn garbage_collect(&self, files: &Vec<BlobFile>) -> (doomed: Vec<usize>)
        requires
            self.wf(),
        ensures
            doomed@.len() == garbage(self@, files@, DEFAULT_GRACE_NANOS, files@.len() as int).len(),
            forall|k: int|
                0 <= k < doomed@.len() ==> (#[trigger] doomed@[k]) as int == garbage(
                    self@,
                    files@,
                    DEFAULT_GRACE_NANOS,
                    files@.len() as int,
                )[k],
            forall|k: int|
                0 <= k < doomed@.len() ==> (files@[(#[trigger] doomed@[k]) as int].age
                    matches BlobAge::Nanos(n) ==> n >= 60_000_000_000),
    {
        proof {
            assert forall|k: int| 0 <= k < garbage(
                self@,
                files@,
                DEFAULT_GRACE_NANOS,
                files@.len() as int,
            ).len() implies ({
                let at = #[trigger] garbage(
                    self@,
                    files@,
                    DEFAULT_GRACE_NANOS,
                    files@.len() as int,
                )[k];
                files@[at].age matches BlobAge::Nanos(n) ==> n >= 60_000_000_000
            }) by {
                lemma_garbage_is_old(self@, files@, DEFAULT_GRACE_NANOS, files@.len() as int, k);
            }
        }
        self.garbage_collect_with_grace(files, DEFAULT_GRACE_NANOS)
    }
}

/// How far an integrity check has come.
pub struct CheckView {
    pub manifests_total: nat,
    pub manifests_ok: nat,
    pub manifests_missing: nat,
    pub manifests_invalid: nat,
    pub blobs_missing: nat,
    pub missing_examples: Seq<Seq<char>>,
    /// The blobs that the manifests seen so far need, themselves included.
    pub referenced: Set<Seq<char>>,
}

/// How many examples a report shows.
pub const EXAMPLES: usize = 5;

/// The check before anything has been looked at.
pub open spec fn unchecked() -> CheckView {
    CheckView {
        manifests_total: 0,
        manifests_ok: 0,
        manifests_missing: 0,
        manifests_invalid: 0,
        blobs_missing: 0,
        missing_examples: seq![],
        referenced: Set::empty(),
    }
}

/// The check after the given files of a document have been looked for.
pub open spec fn check_files(
    v: LibraryView,
    c: CheckView,
    document_id: Seq<char>,
    files: Seq<FileView>,
) -> CheckView
    decreases files.len(),
{
    if files.len() == 0 {
        c
    } else {
        let before = check_files(v, c, document_id, files.drop_last());
        let f = files.last();
        let seen = CheckView { referenced: before.referenced.insert(f.sha256), ..before };
        if v.blobs.contains(f.sha256) {
            seen
        } else {
            CheckView {
                blobs_missing: seen.blobs_missing + 1,
                missing_examples: if seen.missing_examples.len() < EXAMPLES {
                    seen.missing_examples.push(document_id + ":"@ + f.path)
                } else {
                    seen.missing_examples
                },
                ..seen
            }
        }
    }
}

/// The check after one manifest of the log has been looked at. A digest that is none, or
/// bytes that are no manifest, make it invalid; a manifest that cannot be read intact is
/// missing.
pub open spec fn check_manifest(v: LibraryView, c: CheckView, digest: Seq<char>) -> CheckView {
    let counted = CheckView { manifests_total: c.manifests_total + 1, ..c };
    if !hash::is_hex_digest(digest) {
        CheckView { manifests_invalid: counted.manifests_invalid + 1, ..counted }
    } else {
        let seen = CheckView { referenced: counted.referenced.insert(digest), ..counted };
        match v.manifest(digest) {
            Err(ErrorView::Json(_)) => CheckView {
                manifests_invalid: seen.manifests_invalid + 1,
                ..seen
            },
            Err(_) => CheckView { manifests_missing: seen.manifests_missing + 1, ..seen },
            Ok(m) => {
                let done = check_files(v, seen, m.document_id, m.files);
                CheckView { manifests_ok: done.manifests_ok + 1, ..done }
            },
        }
    }
}

/// The check after the given manifests have been looked at.
pub open spec fn check_manifests(v: LibraryView, digests: Seq<Seq<char>>) -> CheckView
    decreases digests.len(),
{
    if digests.len() == 0 {
        unchecked()
    } else {
        check_manifest(v, check_manifests(v, digests.drop_last()), digests.last())
    }
}

/// The manifests that the log refers to, each once, in ascending order.
pub open spec fn manifests_to_check(v: LibraryView) -> Seq<Seq<char>> {
    table::sorted_keys(
        Map::new(|d: Seq<char>| logged_digests(v.versions).contains(d), |d: Seq<char>| d),
    )
}

/// The paths of those files that no manifest needs.
pub open spec fn orphans(referenced: Set<Seq<char>>, files: Seq<BlobFile>) -> Seq<Seq<char>>
    decreases files.len(),
{
    if files.len() == 0 {
        seq![]
    } else {
        let rest = orphans(referenced, files.drop_last());
        if referenced.contains(files.last().name@) {
            rest
        } else {
            rest.push(files.last().path@)
        }
    }
}

/// Whether the contents of a file were asked for, and could not be read or have another digest
/// than its name says.
pub open spec fn is_corrupted(file: BlobFile) -> bool {
    match file.contents {
        BlobContents::NotRead => false,
        BlobContents::Unreadable => true,
        BlobContents::Digest(digest) => digest@ != file.name@,
    }
}

/// How many files are corrupted.
pub open spec fn corrupted_count(files: Seq<BlobFile>) -> nat
    decreases files.len(),
{
    if files.len() == 0 {
        0
    } else {
        corrupted_count(files.drop_last()) + (if is_corrupted(files.last()) {
            1nat
        } else {
            0nat
        })
    }
}

/// The first few of a list.
pub open spec fn first_examples(s: Seq<Seq<char>>) -> Seq<Seq<char>> {
    if s.len() <= EXAMPLES {
        s
    } else {
        s.take(EXAMPLES as int)
    }
}

/// Looking for files changes no other count and never forgets a blob.
proof fn lemma_check_files(v: LibraryView, c: CheckView, document_id: Seq<char>, files: Seq<FileView>)
    ensures
        check_files(v, c, document_id, files).manifests_total == c.manifests_total,
        check_files(v, c, document_id, files).manifests_ok == c.manifests_ok,
        check_files(v, c, document_id, files).manifests_missing == c.manifests_missing,
        check_files(v, c, document_id, files).manifests_invalid == c.manifests_invalid,
        c.missing_examples.len() <= EXAMPLES ==> check_files(
            v,
            c,
            document_id,
            files,
        ).missing_examples.len() <= EXAMPLES,
    decreases files.len(),
{
    if files.len() > 0 {
        lemma_check_files(v, c, document_id, files.drop_last());
    }
}

/// In an integrity check every manifest is counted once: as sound, as missing or as
/// invalid.
pub proof fn every_manifest_is_counted_once(v: LibraryView, digests: Seq<Seq<char>>)
    ensures
        check_manifests(v, digests).manifests_total == digests.len(),
        check_manifests(v, digests).manifests_total == check_manifests(v, digests).manifests_ok
            + check_manifests(v, digests).manifests_missing + check_manifests(
            v,
            digests,
        ).manifests_invalid,
        check_manifests(v, digests).missing_examples.len() <= EXAMPLES,
    decreases digests.len(),
{
    if digests.len() > 0 {
        every_manifest_is_counted_once(v, digests.drop_last());
        let before = check_manifests(v, digests.drop_last());
        let digest = digests.last();
        let counted = CheckView { manifests_total: before.manifests_total + 1, ..before };
        let seen = CheckView { referenced: counted.referenced.insert(digest), ..counted };
        match v.manifest(digest) {
            Ok(m) => {
                lemma_check_files(v, seen, m.document_id, m.files);
            },
            Err(_) => {},
        }
    }
}

/// A count as far as it fits.
pub open spec fn clamped_count(n: nat) -> usize {
    if n <= usize::MAX {
        n as usize
    } else {
        usize::MAX
    }
}

impl VerifyReport {
    /// Whether the report shows what the check `c` of the manifests and the blob files came to.
    pub open spec fn shows(&self, c: CheckView, files: Seq<BlobFile>) -> bool {
        &&& self.manifests_total == c.manifests_total
        &&& self.manifests_ok == c.manifests_ok
        &&& self.manifests_missing == c.manifests_missing
        &&& self.manifests_invalid == c.manifests_invalid
        &&& self.blobs_missing == clamped_count(c.blobs_missing)
        &&& self.missing_examples.deep_view() == c.missing_examples
        &&& self.blobs_corrupted == corrupted_count(files)
        &&& self.blobs_total == files.len()
        &&& self.blobs_orphan == orphans(c.referenced, files).len()
        &&& self.orphan_examples.deep_view() == first_examples(orphans(c.referenced, files))
    }
}

proof fn lemma_orphans(referenced: Set<Seq<char>>, files: Seq<BlobFile>)
    ensures
        orphans(referenced, files).len() <= files.len(),
        corrupted_count(files) <= files.len(),
    decreases files.len(),
{
    if files.len() > 0 {
        lemma_orphans(referenced, files.drop_last());
    }
}

impl Library {
    /// Checks the library against the blob files on disk: whether every manifest of the log can
    /// be read, whether every blob that they need is there, which blobs none of them needs, and
    /// whether those whose contents were asked for could be read and have the digest they are
    /// filed under. Nothing is changed.
    pub fn verify(&self, files: &Vec<BlobFile>) -> (r: VerifyReport)
        requires
            self.wf(),
        ensures
            r.shows(check_manifests(self@, manifests_to_check(self@)), files@),
    {
        let digests = self.logged_manifests();
        let ghost rows = digests.listing();
        proof {
            table::lemma_keys_along::<String>(rows);
            assert(table::keys_along::<String>(rows) =~= rows);
            let m = Map::new(
                |d: Seq<char>| logged_digests(self@.versions).contains(d),
                |d: Seq<char>| d,
            );
            assert forall|d: Seq<char>| #[trigger] digests@.contains_key(d) implies digests@[d] == d by {
                let i = table::lemma_key_has_row::<String>(rows, d);
            }
            assert(digests@ =~= m);
            assert(rows == manifests_to_check(self@));
        }
        let mut report = VerifyReport {
            manifests_total: 0,
            manifests_ok: 0,
            manifests_missing: 0,
            manifests_invalid: 0,
            blobs_total: 0,
            blobs_missing: 0,
            blobs_orphan: 0,
            blobs_corrupted: 0,
            missing_examples: Vec::new(),
            orphan_examples: Vec::new(),
        };
        let mut referenced: Table<String> = Table::new();
        let mut i: usize = 0;
        proof {
            assert(rows.take(0) =~= seq![]);
            assert(report.missing_examples.deep_view() =~= seq![]);
            assert(referenced@.dom() =~= Set::empty());
        }
        while i < digests.len()
            invariant
                self.wf(),
                digests.wf(),
                rows == digests.listing(),
                i <= rows.len(),
                referenced.wf(),
                report.orphan_examples@.len() == 0,
                report.blobs_total == 0,
                report.blobs_orphan == 0,
                report.blobs_corrupted == 0,
                ({
                    let c = check_manifests(self@, rows.take(i as int));
                    &&& report.manifests_total == c.manifests_total
                    &&& report.manifests_ok == c.manifests_ok
                    &&& report.manifests_missing == c.manifests_missing
                    &&& report.manifests_invalid == c.manifests_invalid
                    &&& report.blobs_missing == clamped_count(c.blobs_missing)
                    &&& report.missing_examples.deep_view() == c.missing_examples
                    &&& referenced@.dom() == c.referenced
                }),
            decreases rows.len() - i,
        {
            let digits = digests.row(i);
            let ghost c = check_manifests(self@, rows.take(i as int));
            proof {
                assert(rows.take(i + 1).drop_last() =~= rows.take(i as int));
                assert(rows.take(i + 1).last() == digits@);
                every_manifest_is_counted_once(self@, rows.take(i as int));
            }
            report.manifests_total = report.manifests_total + 1;
            match Sha256Hex::from_hex(digits.as_str()) {
                None => {
                    report.manifests_invalid = report.manifests_invalid + 1;
                },
                Some(digest) => {
                    referenced.put(digest.to_hex());
                    assert(referenced@.dom() =~= c.referenced.insert(digest@));
                    match self.manifest(&digest) {
                        Ok(m) => {
                            let ghost counted = CheckView {
                                manifests_total: c.manifests_total + 1,
                                referenced: c.referenced.insert(digest@),
                                ..c
                            };
                            let ghost all = m.deep_view().files;
                            proof {
                                lemma_check_files(self@, counted, m.document_id@, all);
                            }
                            let mut k: usize = 0;
                            assert(all.take(0) =~= seq![]);
                            while k < m.files.len()
                                invariant
                                    self.wf(),
                                    all == m.files.deep_view(),
                                    k <= all.len(),
                                    referenced.wf(),
                                    report.orphan_examples@.len() == 0,
                                    report.blobs_total == 0,
                                    report.blobs_orphan == 0,
                                    report.blobs_corrupted == 0,
                                    report.manifests_total == counted.manifests_total,
                                    report.manifests_ok == counted.manifests_ok,
                                    report.manifests_missing == counted.manifests_missing,
                                    report.manifests_invalid == counted.manifests_invalid,
                                    ({
                                        let d = check_files(
                                            self@,
                                            counted,
                                            m.document_id@,
                                            all.take(k as int),
                                        );
                                        &&& report.blobs_missing == clamped_count(d.blobs_missing)
                                        &&& report.missing_examples.deep_view() == d.missing_examples
                                        &&& referenced@.dom() == d.referenced
                                    }),
                                decreases all.len() - k,
                            {
                                let f = &m.files[k];
                                let ghost d = check_files(
                                    self@,
                                    counted,
                                    m.document_id@,
                                    all.take(k as int),
                                );
                                proof {
                                    assert(all.take(k + 1).drop_last() =~= all.take(k as int));
                                    assert(all.take(k + 1).last() == f.deep_view());
                                }
                                referenced.put(f.sha256.to_hex());
                                assert(referenced@.dom() =~= d.referenced.insert(f.sha256@));
                                if !self.blobs.has(&f.sha256) {
                                    if report.blobs_missing < usize::MAX {
                                        report.blobs_missing = report.blobs_missing + 1;
                                    }
                                    if report.missing_examples.len() < EXAMPLES {
                                        let ghost before = report.missing_examples.deep_view();
                                        let example = text::concat3(
                                            m.document_id.as_str(),
                                            ":",
                                            f.path.as_str(),
                                        );
                                        report.missing_examples.push(example);
                                        assert(report.missing_examples.deep_view() =~= before.push(
                                            example@,
                                        ));
                                    }
                                }
                                k = k + 1;
                            }
                            assert(all.take(all.len() as int) =~= all);
                            report.manifests_ok = report.manifests_ok + 1;
                        },
                        Err(CoreError::Json(_)) => {
                            report.manifests_invalid = report.manifests_invalid + 1;
                        },
                        Err(_) => {
                            report.manifests_missing = report.manifests_missing + 1;
                        },
                    }
                },
            }
            i = i + 1;
        }
        assert(rows.take(rows.len() as int) =~= rows);
        let ghost c = check_manifests(self@, rows);
        let mut n: usize = 0;
        proof {
            assert(files@.take(0) =~= seq![]);
            assert(report.orphan_examples.deep_view() =~= seq![]);
        }
        while n < files.len()
            invariant
                n <= files.len(),
                referenced.wf(),
                referenced@.dom() == c.referenced,
                report.manifests_total == c.manifests_total,
                report.manifests_ok == c.manifests_ok,
                report.manifests_missing == c.manifests_missing,
                report.manifests_invalid == c.manifests_invalid,
                report.blobs_missing == clamped_count(c.blobs_missing),
                report.missing_examples.deep_view() == c.missing_examples,
                report.blobs_corrupted == corrupted_count(files@.take(n as int)),
                report.blobs_total == n,
                report.blobs_orphan == orphans(c.referenced, files@.take(n as int)).len(),
                report.orphan_examples.deep_view() == first_examples(
                    orphans(c.referenced, files@.take(n as int)),
                ),
            decreases files.len() - n,
        {
            let ghost before = orphans(c.referenced, files@.take(n as int));
            proof {
                assert(files@.take(n + 1).drop_last() =~= files@.take(n as int));
                assert(files@.take(n + 1).last() == files@[n as int]);
                lemma_orphans(c.referenced, files@.take(n as int));
            }
            report.blobs_total = report.blobs_total + 1;
            let corrupted = match &files[n].contents {
                BlobContents::NotRead => false,
                BlobContents::Unreadable => true,
                BlobContents::Digest(digest) => !text::str_eq(digest.as_str(), files[n].name.as_str()),
            };
            if corrupted {
                report.blobs_corrupted = report.blobs_corrupted + 1;
            }
            if !referenced.contains(files[n].name.as_str()) {
                report.blobs_orphan = report.blobs_orphan + 1;
                let ghost shown = report.orphan_examples.deep_view();
                if report.orphan_examples.len() < EXAMPLES {
                    let path = files[n].path.clone();
                    report.orphan_examples.push(path);
                    assert(report.orphan_examples.deep_view() =~= shown.push(path@));
                    assert(shown =~= before);
                }
                assert(first_examples(before.push(files@[n as int].path@)) =~= report.orphan_examples.deep_view());
            }
            n = n + 1;
        }
        assert(files@.take(files@.len() as int) =~= files@);
        report
    }
}

/// One file of an export: the blob to read and the path to write it to.
#[derive(Debug)]
pub struct ExportFile {
    pub blob: Sha256Hex,
    pub target: String,
}

/// The model of an [`ExportFile`].
pub struct ExportView {
    pub blob: Seq<char>,
    pub target: Seq<char>,
}

impl DeepView for ExportFile {
    type V = ExportView;

    open spec fn deep_view(&self) -> ExportView {
        ExportView { blob: self.blob@, target: self.target@ }
    }
}

/// What an export of a version into the directory `dest` consists of.
pub open spec fn export_of(v: LibraryView, version_id: i64, dest: Seq<char>) -> Result<
    Seq<ExportView>,
    ErrorView,
> {
    match v.version(version_id) {
        None => Err(ErrorView::NotFound("version "@ + text::decimal(version_id as int))),
        Some(row) => if !hash::is_hex_digest(row.manifest_hash) {
            Err(
                ErrorView::Corrupt {
                    path: v.db_path,
                    reason: "bad manifest hash for version "@ + text::decimal(version_id as int),
                },
            )
        } else {
            match v.manifest(row.manifest_hash) {
                Err(e) => Err(e),
                Ok(m) => match manifest::first_stray(m.files) {
                    Some(path) => Err(manifest::stray_path(path)),
                    None => Ok(
                        Seq::new(
                            m.files.len(),
                            |i: int|
                                ExportView {
                                    blob: m.files[i].sha256,
                                    target: paths::joined(dest, m.files[i].path),
                                },
                        ),
                    ),
                },
            }
        },
    }
}

/// Decides whether an export may go ahead, given which of its targets exist already. Without
/// leave to overwrite, the first one that exists stops it.
pub fn permit_export(
    files: &Vec<ExportFile>,
    exists_already: &Vec<bool>,
    opts: ReconstructOptions,
) -> (r: Result<(), CoreError>)
    requires
        files@.len() == exists_already@.len(),
    ensures
        match r {
            Ok(_) => opts.allow_overwrite || forall|i: int|
                0 <= i < files@.len() ==> !(#[trigger] exists_already@[i]),
            Err(e) => !opts.allow_overwrite && exists|i: int|
                0 <= i < files@.len() && (#[trigger] exists_already@[i]) && e.deep_view()
                    == ErrorView::AlreadyExists(files@[i].target@) && forall|j: int|
                    0 <= j < i ==> !(#[trigger] exists_already@[j]),
        },
{
    if opts.allow_overwrite {
        return Ok(());
    }
    let mut i: usize = 0;
    while i < files.len()
        invariant
            files@.len() == exists_already@.len(),
            i <= files.len(),
            !opts.allow_overwrite,
            forall|j: int| 0 <= j < i ==> !(#[trigger] exists_already@[j]),
        decreases files.len() - i,
    {
        if exists_already[i] {
            return Err(CoreError::AlreadyExists(files[i].target.clone()));
        }
        i = i + 1;
    }
    Ok(())
}

impl Library {
    /// Plans the export of a version into the directory `dest`. Every target lies below it: a
    /// version with a path that leads out is refused. The caller asks [`permit_export`] before it
    /// writes anything.
    pub fn reconstruct(&self, version_id: i64, dest: &str) -> (r: Result<Vec<ExportFile>, CoreError>)
        requires
            self.wf(),
        ensures
            error::outcome(r) == export_of(self@, version_id, dest@),
    {
        let at = match self.version_position(version_id) {
            Some(at) => at,
            None => {
                let number = text::decimal_of(version_id);
                return Err(CoreError::NotFound(text::concat2("version ", number.as_str())));
            },
        };
        assert(self.versions[at as int].deep_view() == self@.versions[at as int]);
        let digest = match Sha256Hex::from_hex(self.versions[at].manifest_hash.as_str()) {
            Some(digest) => digest,
            None => {
                let number = text::decimal_of(version_id);
                return Err(
                    CoreError::Corrupt {
                        path: self.blobs.paths().db.clone(),
                        reason: text::concat2("bad manifest hash for version ", number.as_str()),
                    },
                );
            },
        };
        let m = match self.manifest(&digest) {
            Ok(m) => m,
            Err(e) => {
                return Err(e);
            },
        };
        if let Err(e) = m.validate_paths() {
            return Err(e);
        }
        let ghost files = m.deep_view().files;
        let mut out: Vec<ExportFile> = Vec::new();
        let mut i: usize = 0;
        while i < m.files.len()
            invariant
                i <= m.files.len(),
                files == m.files.deep_view(),
                out.deep_view() == Seq::new(
                    i as nat,
                    |k: int|
                        ExportView {
                            blob: files[k].sha256,
                            target: paths::joined(dest@, files[k].path),
                        },
                ),
            decreases m.files.len() - i,
        {
            let file = ExportFile {
                blob: m.files[i].sha256.clone(),
                target: paths::join(dest, m.files[i].path.as_str()),
            };
            let ghost before = out.deep_view();
            out.push(file);
            proof {
                assert(out.deep_view() =~= before.push(file.deep_view()));
                assert(files[i as int] == m.files[i as int].deep_view());
                assert(out.deep_view() =~= Seq::new(
                    (i + 1) as nat,
                    |k: int|
                        ExportView {
                            blob: files[k].sha256,
                            target: paths::joined(dest@, files[k].path),
                        },
                ));
            }
            i = i + 1;
        }
        assert(out.deep_view() =~= export_of(self@, version_id, dest@)->Ok_0);
        Ok(out)
    }
}

/// Whether a folder has a local change that the device has yet to hear of.
pub open spec fn is_unsettled(row: FolderRowView) -> bool {
    row.pending_push || row.deleted_locally
}

/// A folder taken back to what the device last had of it.
pub open spec fn restored(row: FolderRowView) -> FolderRowView {
    let snapshot = row.last_synced_metadata_json->0;
    let fields = json::fields_of_text(snapshot);
    FolderRowView {
        metadata_json: snapshot,
        visible_name: match documents::text_in(fields, "visibleName"@) {
            Some(n) => n,
            None => "(restored)"@,
        },
        parent: documents::parent_in(fields),
        pending_push: false,
        deleted_locally: false,
        ..row
    }
}

/// Whether a folder exists only here: it has a local change, and the device has never seen
/// it.
pub open spec fn is_local_only(row: FolderRowView) -> bool {
    is_unsettled(row) && row.last_synced_metadata_json is None
}

/// The folders as the device last had them.
pub open spec fn reverted_folders(folders: Map<Seq<char>, FolderRowView>) -> Map<
    Seq<char>,
    FolderRowView,
> {
    Map::new(
        |k: Seq<char>| folders.contains_key(k) && !is_local_only(folders[k]),
        |k: Seq<char>|
            if is_unsettled(folders[k]) {
                restored(folders[k])
            } else {
                folders[k]
            },
    )
}

/// The number of the newest of a document's first `n` versions with the given manifest.
pub open spec fn newest_with(
    versions: Seq<VersionRowView>,
    document_id: Seq<char>,
    manifest: Seq<char>,
    n: int,
) -> Option<i64>
    decreases n,
{
    if n <= 0 {
        None
    } else if versions[n - 1].document_id == document_id && versions[n - 1].manifest_hash == manifest {
        Some(versions[n - 1].id)
    } else {
        newest_with(versions, document_id, manifest, n - 1)
    }
}

/// The version that a live document is taken back to: the one the device has, if the
/// document has moved on since and the version is still in the log.
pub open spec fn rollback_target(v: LibraryView, document_id: Seq<char>) -> Option<(Seq<char>, i64)> {
    if v.sync.contains_key(document_id) && v.sync[document_id].last_seen_manifest is Some
        && v.sync[document_id].last_seen_manifest->0 != v.documents[document_id].current_manifest {
        let seen = v.sync[document_id].last_seen_manifest->0;
        match newest_with(v.versions, document_id, seen, v.versions.len() as int) {
            Some(id) => Some((seen, id)),
            None => None,
        }
    } else {
        None
    }
}

/// The live documents as the device has them, as far as it has them.
pub open spec fn reverted_documents(v: LibraryView) -> Map<Seq<char>, DocumentRowView> {
    Map::new(
        |k: Seq<char>| v.documents.contains_key(k),
        |k: Seq<char>|
            match rollback_target(v, k) {
                Some((manifest, version_id)) => DocumentRowView {
                    current_manifest: manifest,
                    current_version_id: version_id,
                    ..v.documents[k]
                },
                None => v.documents[k],
            },
    )
}

/// The library without any local change that has not been pushed. Imports that the device
/// has never seen stay.
pub open spec fn reverted(v: LibraryView) -> LibraryView {
    LibraryView { folders: reverted_folders(v.folders), documents: reverted_documents(v), ..v }
}

proof fn lemma_newest_is_logged(
    versions: Seq<VersionRowView>,
    document_id: Seq<char>,
    manifest: Seq<char>,
    n: int,
)
    requires
        n <= versions.len(),
    ensures
        newest_with(versions, document_id, manifest, n) matches Some(id) ==> library::logs(
            versions,
            document_id,
            id,
        ) && exists|i: int|
            0 <= i < versions.len() && (#[trigger] versions[i]).document_id == document_id
                && versions[i].manifest_hash == manifest,
    decreases n,
{
    if n > 0 {
        if versions[n - 1].document_id == document_id && versions[n - 1].manifest_hash == manifest {
            assert(versions[n - 1].id == versions[n - 1].id);
        } else {
            lemma_newest_is_logged(versions, document_id, manifest, n - 1);
        }
    }
}

/// Records that agree still agree after a revert.
pub proof fn lemma_reverted_agrees(v: LibraryView)
    requires
        v.consistent(),
    ensures
        reverted(v).consistent(),
{
    let after = reverted(v);
    assert(after.documents.dom() =~= v.documents.dom());
    assert(library::agree(after.documents, after.archived, after.versions)) by {
        reveal(library::agree);
        assert forall|k: Seq<char>| #[trigger] after.documents.contains_key(k) implies library::logs(
            after.versions,
            k,
            after.documents[k].current_version_id,
        ) by {
            assert(v.documents.contains_key(k));
            if v.sync.contains_key(k) && v.sync[k].last_seen_manifest is Some {
                lemma_newest_is_logged(
                    v.versions,
                    k,
                    v.sync[k].last_seen_manifest->0,
                    v.versions.len() as int,
                );
            }
        }
    }
    assert(library::owned(after.documents, after.archived, after.versions, after.manifests)) by {
        reveal(library::owned);
        assert forall|k: Seq<char>| #[trigger] after.documents.contains_key(k) implies library::names(
            after.manifests,
            after.documents[k].current_manifest,
            k,
        ) by {
            assert(v.documents.contains_key(k));
            if rollback_target(v, k) is Some {
                let seen = v.sync[k].last_seen_manifest->0;
                lemma_newest_is_logged(v.versions, k, seen, v.versions.len() as int);
                let i = choose|i: int|
                    0 <= i < v.versions.len() && (#[trigger] v.versions[i]).document_id == k
                        && v.versions[i].manifest_hash == seen;
                assert(v.versions[i].manifest_hash == seen);
            }
        }
    }
}

/// How many of the folders among `keys` go back to what the device had.
pub open spec fn restored_among(folders: Map<Seq<char>, FolderRowView>, keys: Seq<Seq<char>>) -> nat
    decreases keys.len(),
{
    if keys.len() == 0 {
        0
    } else {
        let row = folders[keys.last()];
        restored_among(folders, keys.drop_last()) + (if is_unsettled(row) && !is_local_only(row) {
            1nat
        } else {
            0nat
        })
    }
}

/// How many of the folders among `keys` exist only here.
pub open spec fn dropped_among(folders: Map<Seq<char>, FolderRowView>, keys: Seq<Seq<char>>) -> nat
    decreases keys.len(),
{
    if keys.len() == 0 {
        0
    } else {
        dropped_among(folders, keys.drop_last()) + (if is_local_only(folders[keys.last()]) {
            1nat
        } else {
            0nat
        })
    }
}

/// How many of the documents among `keys` are taken back.
pub open spec fn rolled_back_among(v: LibraryView, keys: Seq<Seq<char>>) -> nat
    decreases keys.len(),
{
    if keys.len() == 0 {
        0
    } else {
        rolled_back_among(v, keys.drop_last()) + (if rollback_target(v, keys.last()) is Some {
            1nat
        } else {
            0nat
        })
    }
}

/// What the first `n + 1` elements of a list hold.
proof fn lemma_take_next(keys: Seq<Seq<char>>, n: int)
    requires
        0 <= n < keys.len(),
    ensures
        forall|k: Seq<char>| #[trigger]
            keys.take(n + 1).contains(k) <==> (keys.take(n).contains(k) || k == keys[n]),
{
    let a = keys.take(n);
    let b = keys.take(n + 1);
    assert forall|k: Seq<char>| #[trigger] b.contains(k) <==> (a.contains(k) || k == keys[n]) by {
        if b.contains(k) {
            let i = choose|i: int| 0 <= i < b.len() && b[i] == k;
            if i < n {
                assert(a[i] == k);
            }
        }
        if a.contains(k) {
            let i = choose|i: int| 0 <= i < a.len() && a[i] == k;
            assert(b[i] == k);
        }
        assert(b[n] == keys[n]);
    }
}

/// The first rows of an ascending listing have other keys than the next one.
proof fn lemma_first_rows<R: Row>(rows: Seq<<R as DeepView>::V>, n: int)
    requires
        table::ascending::<R>(rows),
        0 <= n < rows.len(),
    ensures
        forall|i: int| 0 <= i < n ==> R::key_of(#[trigger] rows[i]) != R::key_of(rows[n]),
{
    assert forall|i: int| 0 <= i < n implies R::key_of(#[trigger] rows[i]) != R::key_of(rows[n]) by {
        assert(text::lex_less(R::key_of(rows[i]), R::key_of(rows[n])));
        text::lemma_lex_irreflexive(R::key_of(rows[n]));
    }
}

impl Library {
    /// The number of the newest version of a document with the given manifest.
    fn newest_version_with(&self, document_id: &str, manifest: &str) -> (r: Option<i64>)
        ensures
            r == newest_with(
                self@.versions,
                document_id@,
                manifest@,
                self@.versions.len() as int,
            ),
    {
        let ghost rows = self.versions.deep_view();
        let mut n: usize = self.versions.len();
        while n > 0
            invariant
                rows == self.versions.deep_view(),
                n <= rows.len(),
                newest_with(rows, document_id@, manifest@, rows.len() as int) == newest_with(
                    rows,
                    document_id@,
                    manifest@,
                    n as int,
                ),
            decreases n,
        {
            let row = &self.versions[n - 1];
            assert(rows[n - 1] == row.deep_view());
            if text::str_eq(row.document_id.as_str(), document_id) && text::str_eq(
                row.manifest_hash.as_str(),
                manifest,
            ) {
                return Some(row.id);
            }
            n = n - 1;
        }
        None
    }

    /// The version that a live document is taken back to.
    fn find_rollback(&self, row: &DocumentRow) -> (r: Option<(String, i64)>)
        requires
            self.wf(),
            self@.documents.contains_key(row.document_id@),
            self@.documents[row.document_id@] == row.deep_view(),
        ensures
            match r {
                Some((m, id)) => rollback_target(self@, row.document_id@) == Some((m@, id)),
                None => rollback_target(self@, row.document_id@) is None,
            },
    {
        match self.sync.get(row.document_id.as_str()) {
            Some(sync) => match &sync.last_seen_manifest {
                Some(seen) => {
                    if text::str_eq(seen.as_str(), row.current_manifest.as_str()) {
                        None
                    } else {
                        match self.newest_version_with(row.document_id.as_str(), seen.as_str()) {
                            Some(id) => Some((seen.clone(), id)),
                            None => None,
                        }
                    }
                },
                None => None,
            },
            None => None,
        }
    }

    /// The folders as the device last had them, and how many were restored and dropped.
    fn revert_folders(&self) -> (r: (Table<FolderRow>, usize, usize))
        requires
            self.wf(),
        ensures
            r.0.wf(),
            r.0@ == reverted_folders(self@.folders),
            r.1 == restored_among(self@.folders, table::sorted_keys(self@.folders)),
            r.2 == dropped_among(self@.folders, table::sorted_keys(self@.folders)),
    {
        let ghost rows = self.folders.listing();
        let ghost keys = table::keys_along::<FolderRow>(rows);
        let ghost target = reverted_folders(self@.folders);
        proof {
            table::lemma_keys_along::<FolderRow>(rows);
        }
        let mut folders: Table<FolderRow> = Table::new();
        let mut restored_count: usize = 0;
        let mut dropped: usize = 0;
        let mut i: usize = 0;
        assert(keys.take(0) =~= seq![]);
        while i < self.folders.len()
            invariant
                self.wf(),
                rows == self.folders.listing(),
                keys == table::keys_along::<FolderRow>(rows),
                target == reverted_folders(self@.folders),
                i <= rows.len(),
                folders.wf(),
                restored_count + dropped <= i,
                restored_count == restored_among(self@.folders, keys.take(i as int)),
                dropped == dropped_among(self@.folders, keys.take(i as int)),
                forall|k: Seq<char>| #[trigger]
                    folders@.contains_key(k) <==> (target.contains_key(k) && keys.take(
                        i as int,
                    ).contains(k)),
                forall|k: Seq<char>| #[trigger]
                    folders@.contains_key(k) ==> folders@[k] == target[k],
            decreases rows.len() - i,
        {
            let row = self.folders.row(i);
            let ghost k0 = row.folder_id@;
            let ghost before = folders@;
            proof {
                table::lemma_by_key::<FolderRow>(rows, i as int);
                lemma_first_rows::<FolderRow>(rows, i as int);
                assert(keys.take(i + 1).drop_last() =~= keys.take(i as int));
                assert(keys.take(i + 1).last() == k0);
                lemma_take_next(keys, i as int);
            }
            if row.pending_push || row.deleted_locally {
                match &row.last_synced_metadata_json {
                    None => {
                        dropped = dropped + 1;
                    },
                    Some(snapshot) => {
                        let value = json::object_from_text(snapshot.as_str());
                        let visible_name = match json::get_text(&value, "visibleName") {
                            Some(n) => n.to_owned(),
                            None => "(restored)".to_owned(),
                        };
                        let parent = match json::get_text(&value, "parent") {
                            Some(p) => if p.is_empty() {
                                None
                            } else {
                                Some(p.to_owned())
                            },
                            None => None,
                        };
                        let mut back = row.copy();
                        back.metadata_json = snapshot.clone();
                        back.visible_name = visible_name;
                        back.parent = parent;
                        back.pending_push = false;
                        back.deleted_locally = false;
                        assert(back.deep_view() == restored(row.deep_view()));
                        folders.put(back);
                        restored_count = restored_count + 1;
                    },
                }
            } else {
                folders.put(row.copy());
            }
            i = i + 1;
        }
        proof {
            assert(keys.take(keys.len() as int) =~= keys);
            assert forall|k: Seq<char>| #[trigger] target.contains_key(k) implies keys.contains(k) by {
                let n = table::lemma_key_has_row::<FolderRow>(rows, k);
                assert(keys[n] == k);
            }
            assert forall|k: Seq<char>| #[trigger] folders@.contains_key(k) <==> target.contains_key(k) by {
                if target.contains_key(k) {
                    assert(keys.contains(k));
                }
            }
            assert(folders@ =~= target);
        }
        (folders, restored_count, dropped)
    }

    /// The live documents as the device has them, and how many were taken back.
    fn revert_documents(&self) -> (r: (Table<DocumentRow>, usize))
        requires
            self.wf(),
        ensures
            r.0.wf(),
            r.0@ == reverted_documents(self@),
            r.1 == rolled_back_among(self@, table::sorted_keys(self@.documents)),
    {
        let ghost rows = self.documents.listing();
        let ghost keys = table::keys_along::<DocumentRow>(rows);
        let ghost target = reverted_documents(self@);
        proof {
            table::lemma_keys_along::<DocumentRow>(rows);
        }
        let mut documents: Table<DocumentRow> = Table::new();
        let mut count: usize = 0;
        let mut i: usize = 0;
        assert(keys.take(0) =~= seq![]);
        while i < self.documents.len()
            invariant
                self.wf(),
                rows == self.documents.listing(),
                keys == table::keys_along::<DocumentRow>(rows),
                target == reverted_documents(self@),
                i <= rows.len(),
                documents.wf(),
                count <= i,
                count == rolled_back_among(self@, keys.take(i as int)),
                forall|k: Seq<char>| #[trigger]
                    documents@.contains_key(k) <==> keys.take(i as int).contains(k),
                forall|k: Seq<char>| #[trigger]
                    documents@.contains_key(k) ==> documents@[k] == target[k],
            decreases rows.len() - i,
        {
            let row = self.documents.row(i);
            let ghost k0 = row.document_id@;
            proof {
                table::lemma_by_key::<DocumentRow>(rows, i as int);
                lemma_first_rows::<DocumentRow>(rows, i as int);
                assert(keys.take(i + 1).drop_last() =~= keys.take(i as int));
                assert(keys.take(i + 1).last() == k0);
                lemma_take_next(keys, i as int);
            }
            let back = match self.find_rollback(row) {
                Some((manifest, version_id)) => {
                    count = count + 1;
                    DocumentRow {
                        document_id: row.document_id.clone(),
                        current_manifest: manifest,
                        current_version_id: version_id,
                    }
                },
                None => DocumentRow {
                    document_id: row.document_id.clone(),
                    current_manifest: row.current_manifest.clone(),
                    current_version_id: row.current_version_id,
                },
            };
            assert(back.deep_view() == target[k0]);
            documents.put(back);
            i = i + 1;
        }
        proof {
            assert(keys.take(keys.len() as int) =~= keys);
            assert forall|k: Seq<char>| #[trigger] documents@.contains_key(k) <==> target.contains_key(k) by {
                if target.contains_key(k) {
                    let n = table::lemma_key_has_row::<DocumentRow>(rows, k);
                    assert(keys[n] == k);
                }
                if keys.contains(k) {
                    let n = choose|n: int| 0 <= n < keys.len() && keys[n] == k;
                    table::lemma_by_key::<DocumentRow>(rows, n);
                }
            }
            assert(documents@ =~= target);
        }
        (documents, count)
    }

    /// Takes the library back to what the device has, undoing every local change that has not
    /// been pushed: folders go back to their last synced metadata, folders that the device has
    /// never seen go away, and documents go back to the version that the device has. Documents
    /// that the device has never seen are left alone, and no version leaves the log.
    pub fn revert_unpushed_changes(&mut self) -> (r: RevertReport)
        requires
            old(self).wf(),
        ensures
            final(self).wf(),
            old(self)@.consistent() ==> final(self)@.consistent(),
            final(self).layout() == old(self).layout(),
            final(self)@ == reverted(old(self)@),
            r.folders_restored == restored_among(
                old(self)@.folders,
                table::sorted_keys(old(self)@.folders),
            ),
            r.folders_dropped == dropped_among(
                old(self)@.folders,
                table::sorted_keys(old(self)@.folders),
            ),
            r.documents_rolled_back == rolled_back_among(
                old(self)@,
                table::sorted_keys(old(self)@.documents),
            ),
    {
        let (folders, folders_restored, folders_dropped) = self.revert_folders();
        let (documents, documents_rolled_back) = self.revert_documents();
        proof {
            if self@.consistent() {
                lemma_reverted_agrees(self@);
            }
        }
        self.folders = folders;
        self.documents = documents;
        RevertReport { folders_restored, folders_dropped, documents_rolled_back }
    }
}

/// The report of a collection counts every deletion that went through, and its bytes, and nothing
/// else: two runs of deletions come to what each of them comes to.
pub proof fn deletions_add_up(a: Seq<(u64, bool)>, b: Seq<(u64, bool)>, one: (u64, bool))
    ensures
        done_count(a + b) == done_count(a) + done_count(b),
        done_bytes(a + b) == done_bytes(a) + done_bytes(b),
        done_count(seq![one]) == (if one.1 {
            1nat
        } else {
            0
        }),
        done_bytes(seq![one]) == (if one.1 {
            one.0 as nat
        } else {
            0
        }),
    decreases b.len(),
{
    assert(seq![one].drop_last() =~= seq![]);
    reveal_with_fuel(done_count, 2);
    reveal_with_fuel(done_bytes, 2);
    if b.len() == 0 {
        assert(a + b =~= a);
    } else {
        assert((a + b).drop_last() =~= a + b.drop_last());
        deletions_add_up(a, b.drop_last(), one);
    }
}

/// A blob file whose age is known may go exactly from the end of the grace period on; one that
/// cannot be examined, or seems to come from the future, is kept.
pub proof fn grace_period_is_kept(age: BlobAge, grace_nanos: u128)
    ensures
        age matches BlobAge::Nanos(n) ==> (is_old_enough(age, grace_nanos) <==> n >= grace_nanos),
        age is Unreadable ==> !is_old_enough(age, grace_nanos),
        age is Future ==> !is_old_enough(age, grace_nanos),
        age is Unknown ==> is_old_enough(age, grace_nanos),
{
}

/// Whether a manifest of the log needs a blob: as itself, or as one of its files.
pub open spec fn manifest_needs(v: LibraryView, digest: Seq<char>, blob: Seq<char>) -> bool {
    hash::is_hex_digest(digest) && (blob == digest || (v.manifest(digest) matches Ok(m)
        && exists|i: int| 0 <= i < m.files.len() && (#[trigger] m.files[i]).sha256 == blob))
}

/// Whether a manifest can be read and one of its files is not in the store.
pub open spec fn lacks_a_file(v: LibraryView, digest: Seq<char>) -> bool {
    hash::is_hex_digest(digest) && (v.manifest(digest) matches Ok(m) && exists|i: int|
        0 <= i < m.files.len() && !v.blobs.contains((#[trigger] m.files[i]).sha256))
}

proof fn lemma_check_files_finds(
    v: LibraryView,
    c: CheckView,
    document_id: Seq<char>,
    files: Seq<FileView>,
    blob: Seq<char>,
)
    ensures
        check_files(v, c, document_id, files).referenced.contains(blob) <==> c.referenced.contains(
            blob,
        ) || exists|i: int| 0 <= i < files.len() && (#[trigger] files[i]).sha256 == blob,
        check_files(v, c, document_id, files).blobs_missing >= c.blobs_missing,
        check_files(v, c, document_id, files).blobs_missing > c.blobs_missing <==> exists|i: int|
            0 <= i < files.len() && !v.blobs.contains((#[trigger] files[i]).sha256),
        check_files(v, c, document_id, files).blobs_missing - c.blobs_missing <= files.len(),
    decreases files.len(),
{
    if files.len() > 0 {
        let init = files.drop_last();
        lemma_check_files_finds(v, c, document_id, init, blob);
        let n = files.len() - 1;
        assert(files[n] == files.last());
        assert(forall|i: int| 0 <= i < n ==> init[i] == #[trigger] files[i]);
        if exists|i: int| 0 <= i < init.len() && (#[trigger] init[i]).sha256 == blob {
            let i = choose|i: int| 0 <= i < init.len() && (#[trigger] init[i]).sha256 == blob;
            assert(files[i].sha256 == blob);
        }
        if exists|i: int| 0 <= i < init.len() && !v.blobs.contains((#[trigger] init[i]).sha256) {
            let i = choose|i: int|
                0 <= i < init.len() && !v.blobs.contains((#[trigger] init[i]).sha256);
            assert(!v.blobs.contains(files[i].sha256));
        }
    }
}

/// An integrity check finds every blob that the manifests need, and no other; it reports missing
/// blobs exactly if a manifest that can be read has a file that is not in the store; and it counts
/// a manifest as sound exactly if it can be read.
pub proof fn check_finds_what_is_missing(v: LibraryView, digests: Seq<Seq<char>>, blob: Seq<char>)
    ensures
        check_manifests(v, digests).referenced.contains(blob) <==> exists|i: int|
            0 <= i < digests.len() && manifest_needs(v, #[trigger] digests[i], blob),
        check_manifests(v, digests).blobs_missing > 0 <==> exists|i: int|
            0 <= i < digests.len() && lacks_a_file(v, #[trigger] digests[i]),
        check_manifests(v, digests).manifests_ok <= digests.len(),
        check_manifests(v, digests).manifests_ok == digests.len() <==> forall|i: int|
            0 <= i < digests.len() ==> hash::is_hex_digest(#[trigger] digests[i]) && v.manifest(
                digests[i],
            ) is Ok,
    decreases digests.len(),
{
    if digests.len() > 0 {
        let init = digests.drop_last();
        let n = digests.len() - 1;
        let digest = digests.last();
        check_finds_what_is_missing(v, init, blob);
        every_manifest_is_counted_once(v, digests);
        every_manifest_is_counted_once(v, init);
        let before = check_manifests(v, init);
        let seen = CheckView {
            manifests_total: before.manifests_total + 1,
            referenced: before.referenced.insert(digest),
            ..before
        };
        if let Ok(m) = v.manifest(digest) {
            lemma_check_files_finds(v, seen, m.document_id, m.files, blob);
            lemma_check_files(v, seen, m.document_id, m.files);
        }
        assert(digests[n] == digest);
        assert(forall|i: int| 0 <= i < n ==> init[i] == #[trigger] digests[i]);
        if exists|i: int| 0 <= i < init.len() && manifest_needs(v, #[trigger] init[i], blob) {
            let i = choose|i: int| 0 <= i < init.len() && manifest_needs(v, #[trigger] init[i], blob);
            assert(manifest_needs(v, digests[i], blob));
        }
        if exists|i: int| 0 <= i < init.len() && lacks_a_file(v, #[trigger] init[i]) {
            let i = choose|i: int| 0 <= i < init.len() && lacks_a_file(v, #[trigger] init[i]);
            assert(lacks_a_file(v, digests[i]));
        }
    }
}

/// Every manifest that the log refers to is checked, and no other.
pub proof fn every_logged_manifest_is_checked(v: LibraryView, digest: Seq<char>)
    requires
        table::lists_keys(
            Map::<Seq<char>, Seq<char>>::new(
                |d: Seq<char>| logged_digests(v.versions).contains(d),
                |d: Seq<char>| d,
            ),
            manifests_to_check(v),
        ),
    ensures
        manifests_to_check(v).contains(digest) <==> exists|i: int|
            0 <= i < v.versions.len() && (#[trigger] v.versions[i]).manifest_hash == digest,
{
    let m = Map::<Seq<char>, Seq<char>>::new(
        |d: Seq<char>| logged_digests(v.versions).contains(d),
        |d: Seq<char>| d,
    );
    assert(m.contains_key(digest) <==> logged_digests(v.versions).contains(digest));
}

/// A blob file is reported as an orphan, by its path, exactly if no manifest needs it; and it is
/// counted as corrupted exactly if its contents were asked for and could not be read, or have
/// another digest than its name says.
pub proof fn stray_blobs_are_reported(
    referenced: Set<Seq<char>>,
    a: Seq<BlobFile>,
    b: Seq<BlobFile>,
    file: BlobFile,
)
    ensures
        orphans(referenced, a + b) == orphans(referenced, a) + orphans(referenced, b),
        orphans(referenced, seq![file]) == (if referenced.contains(file.name@) {
            seq![]
        } else {
            seq![file.path@]
        }),
        corrupted_count(a + b) == corrupted_count(a) + corrupted_count(b),
        corrupted_count(seq![file]) == (match file.contents {
            BlobContents::NotRead => 0nat,
            BlobContents::Unreadable => 1,
            BlobContents::Digest(digest) => if digest@ == file.name@ {
                0
            } else {
                1
            },
        }),
    decreases b.len(),
{
    assert(seq![file].drop_last() =~= seq![]);
    reveal_with_fuel(orphans, 2);
    reveal_with_fuel(corrupted_count, 2);
    assert(Seq::<Seq<char>>::empty().push(file.path@) =~= seq![file.path@]);
    if b.len() == 0 {
        assert(a + b =~= a);
        assert(orphans(referenced, a) + orphans(referenced, b) =~= orphans(referenced, a));
    } else {
        assert((a + b).drop_last() =~= a + b.drop_last());
        stray_blobs_are_reported(referenced, a, b.drop_last(), file);
        assert(orphans(referenced, a + b) =~= orphans(referenced, a) + orphans(referenced, b));
    }
}

/// Of a list the first five are shown, in their order, or all of them.
pub proof fn examples_are_the_first(s: Seq<Seq<char>>)
    ensures
        first_examples(s).len() == (if s.len() <= 5 {
            s.len() as int
        } else {
            5
        }),
        forall|i: int| 0 <= i < first_examples(s).len() ==> #[trigger] first_examples(s)[i] == s[i],
{
}

proof fn lemma_newest(
    versions: Seq<VersionRowView>,
    document_id: Seq<char>,
    manifest: Seq<char>,
    n: int,
)
    requires
        0 <= n <= versions.len(),
    ensures
        match newest_with(versions, document_id, manifest, n) {
            Some(id) => exists|i: int|
                0 <= i < n && (#[trigger] versions[i]).id == id && versions[i].document_id
                    == document_id && versions[i].manifest_hash == manifest && forall|j: int|
                    i < j < n ==> !((#[trigger] versions[j]).document_id == document_id
                        && versions[j].manifest_hash == manifest),
            None => forall|j: int|
                0 <= j < n ==> !((#[trigger] versions[j]).document_id == document_id
                    && versions[j].manifest_hash == manifest),
        },
    decreases n,
{
    if n > 0 {
        lemma_newest(versions, document_id, manifest, n - 1);
        if versions[n - 1].document_id == document_id && versions[n - 1].manifest_hash == manifest {
            assert(versions[n - 1].id == versions[n - 1].id);
        } else if newest_with(versions, document_id, manifest, n - 1) is Some {
            let id = newest_with(versions, document_id, manifest, n - 1)->0;
            let i = choose|i: int|
                0 <= i < n - 1 && (#[trigger] versions[i]).id == id && versions[i].document_id
                    == document_id && versions[i].manifest_hash == manifest && forall|j: int|
                    i < j < n - 1 ==> !((#[trigger] versions[j]).document_id == document_id
                        && versions[j].manifest_hash == manifest);
            assert(versions[i].id == id);
        }
    }
}

/// A revert takes a live document that has moved on back to what the device has of it, at the
/// newest version of the log that is that, and leaves every other document as it is.
pub proof fn revert_takes_documents_back(v: LibraryView, document_id: Seq<char>)
    requires
        v.documents.contains_key(document_id),
    ensures
        ({
            let before = v.documents[document_id];
            let after = reverted(v).documents[document_id];
            let seen = v.sync[document_id].last_seen_manifest;
            let moved_on = v.sync.contains_key(document_id) && seen is Some && seen->0
                != before.current_manifest && exists|i: int|
                0 <= i < v.versions.len() && (#[trigger] v.versions[i]).document_id == document_id
                    && v.versions[i].manifest_hash == seen->0;
            &&& reverted(v).documents.contains_key(document_id)
            &&& after.document_id == before.document_id
            &&& !moved_on ==> after == before
            &&& moved_on ==> after.current_manifest == seen->0 && exists|i: int|
                0 <= i < v.versions.len() && (#[trigger] v.versions[i]).id
                    == after.current_version_id && v.versions[i].document_id == document_id
                    && v.versions[i].manifest_hash == seen->0 && forall|j: int|
                    i < j < v.versions.len() ==> !((#[trigger] v.versions[j]).document_id
                        == document_id && v.versions[j].manifest_hash == seen->0)
        }),
{
    if v.sync.contains_key(document_id) && v.sync[document_id].last_seen_manifest is Some {
        lemma_newest(
            v.versions,
            document_id,
            v.sync[document_id].last_seen_manifest->0,
            v.versions.len() as int,
        );
    }
}

/// A revert takes a folder with a local change back to what the device last had of it, and drops
/// one that the device has never seen; a folder without a local change is left as it is. The
/// position of a folder is never touched.
pub proof fn revert_takes_folders_back(v: LibraryView, id: Seq<char>)
    requires
        v.folders.contains_key(id),
    ensures
        ({
            let before = v.folders[id];
            let after = reverted(v).folders;
            let changed = before.pending_push || before.deleted_locally;
            &&& !changed ==> after.contains_key(id) && after[id] == before
            &&& changed && before.last_synced_metadata_json is None ==> !after.contains_key(id)
            &&& changed ==> (before.last_synced_metadata_json matches Some(synced) ==> {
                let fields = json::fields_of_text(synced);
                &&& after.contains_key(id)
                &&& after[id].metadata_json == synced
                &&& after[id].last_synced_metadata_json == Some(synced)
                &&& !after[id].pending_push
                &&& !after[id].deleted_locally
                &&& after[id].sort_index == before.sort_index
                &&& after[id].folder_id == before.folder_id
                &&& fields.contains_key("visibleName"@) && json::json_str(fields["visibleName"@])
                    is Some ==> Some(after[id].visible_name) == json::json_str(
                    fields["visibleName"@],
                )
                &&& !fields.contains_key("visibleName"@) ==> after[id].visible_name
                    == "(restored)"@
                &&& after[id].parent matches Some(p) ==> p.len() > 0 && fields.contains_key(
                    "parent"@,
                ) && json::json_str(fields["parent"@]) == Some(p)
                &&& fields.contains_key("parent"@) ==> (json::json_str(
                    fields["parent"@],
                ) matches Some(p) ==> p.len() > 0 ==> after[id].parent == Some(p))
            })
        }),
{
}

/// The report of a revert counts each folder that was taken back, each that was dropped and each
/// document that was taken back, once.
pub proof fn revert_is_counted(v: LibraryView, folders: Seq<Seq<char>>, documents: Seq<Seq<char>>)
    ensures
        restored_among(v.folders, folders) == folders.filter(
            |k: Seq<char>|
                (v.folders[k].pending_push || v.folders[k].deleted_locally)
                    && v.folders[k].last_synced_metadata_json is Some,
        ).len(),
        dropped_among(v.folders, folders) == folders.filter(
            |k: Seq<char>|
                (v.folders[k].pending_push || v.folders[k].deleted_locally)
                    && v.folders[k].last_synced_metadata_json is None,
        ).len(),
        rolled_back_among(v, documents) == documents.filter(
            |k: Seq<char>| rollback_target(v, k) is Some,
        ).len(),
    decreases folders.len() + documents.len(),
{
    reveal(Seq::filter);
    if folders.len() > 0 {
        revert_is_counted(v, folders.drop_last(), documents);
    } else if documents.len() > 0 {
        revert_is_counted(v, folders, documents.drop_last());
    }
    if folders.len() > 0 && documents.len() > 0 {
        revert_is_counted(v, folders, documents.drop_last());
    }
}

proof fn lemma_garbage_is_old(
    v: LibraryView,
    files: Seq<BlobFile>,
    grace_nanos: u128,
    n: int,
    k: int,
)
    requires
        0 <= n <= files.len(),
        0 <= k < garbage(v, files, grace_nanos, n).len(),
    ensures
        is_old_enough(files[garbage(v, files, grace_nanos, n)[k]].age, grace_nanos),
    decreases n,
{
    if n > 0 && k < garbage(v, files, grace_nanos, n - 1).len() {
        lemma_garbage_is_old(v, files, grace_nanos, n - 1, k);
    }
}

/// Whether a text names a file that a manifest needs and that is not in the store.
pub open spec fn names_a_missing_file(
    v: LibraryView,
    digests: Seq<Seq<char>>,
    example: Seq<char>,
) -> bool {
    exists|i: int, k: int|
        0 <= i < digests.len() && hash::is_hex_digest(digests[i]) && (v.manifest(
            digests[i],
        ) matches Ok(m) && 0 <= k < m.files.len() && !v.blobs.contains(m.files[k].sha256)
            && example == m.document_id + ":"@ + #[trigger] manifest_file(v, digests[i], k).path)
}

/// A file of a manifest that can be read.
pub open spec fn manifest_file(v: LibraryView, digest: Seq<char>, k: int) -> FileView {
    v.manifest(digest)->Ok_0.files[k]
}

proof fn lemma_examples(
    v: LibraryView,
    digests: Seq<Seq<char>>,
    c: CheckView,
    i: int,
    n: int,
)
    requires
        0 <= i < digests.len(),
        hash::is_hex_digest(digests[i]),
        v.manifest(digests[i]) is Ok,
        0 <= n <= v.manifest(digests[i])->Ok_0.files.len(),
        c.missing_examples.len() <= EXAMPLES,
        c.missing_examples.len() > 0 <==> c.blobs_missing > 0,
        forall|e: int|
            0 <= e < c.missing_examples.len() ==> names_a_missing_file(
                v,
                digests,
                #[trigger] c.missing_examples[e],
            ),
    ensures
        ({
            let m = v.manifest(digests[i])->Ok_0;
            let done = check_files(v, c, m.document_id, m.files.take(n));
            &&& done.missing_examples.len() > 0 <==> done.blobs_missing > 0
            &&& forall|e: int|
                0 <= e < done.missing_examples.len() ==> names_a_missing_file(
                    v,
                    digests,
                    #[trigger] done.missing_examples[e],
                )
        }),
    decreases n,
{
    let m = v.manifest(digests[i])->Ok_0;
    if n == 0 {
        assert(m.files.take(0) =~= seq![]);
    } else {
        lemma_examples(v, digests, c, i, n - 1);
        lemma_check_files(v, c, m.document_id, m.files.take(n - 1));
        assert(m.files.take(n).drop_last() =~= m.files.take(n - 1));
        assert(m.files.take(n).last() == m.files[n - 1]);
        let before = check_files(v, c, m.document_id, m.files.take(n - 1));
        let done = check_files(v, c, m.document_id, m.files.take(n));
        assert forall|e: int| 0 <= e < done.missing_examples.len() implies names_a_missing_file(
            v,
            digests,
            #[trigger] done.missing_examples[e],
        ) by {
            if e < before.missing_examples.len() {
                assert(done.missing_examples[e] == before.missing_examples[e]);
            } else {
                assert(manifest_file(v, digests[i], n - 1).path == m.files[n - 1].path);
            }
        }
    }
}

proof fn lemma_named_longer(v: LibraryView, digests: Seq<Seq<char>>, example: Seq<char>)
    requires
        digests.len() > 0,
        names_a_missing_file(v, digests.drop_last(), example),
    ensures
        names_a_missing_file(v, digests, example),
{
    let init = digests.drop_last();
    let (i, k) = choose|i: int, k: int|
        0 <= i < init.len() && hash::is_hex_digest(init[i]) && (v.manifest(init[i]) matches Ok(m)
            && 0 <= k < m.files.len() && !v.blobs.contains(m.files[k].sha256) && example
            == m.document_id + ":"@ + #[trigger] manifest_file(v, init[i], k).path);
    assert(digests[i] == init[i]);
    assert(manifest_file(v, digests[i], k).path == manifest_file(v, init[i], k).path);
}

/// Every example in the report of an integrity check names a document and a file of it that is not
/// in the store; and there is one whenever such a file was found.
pub proof fn examples_name_missing_files(v: LibraryView, digests: Seq<Seq<char>>)
    ensures
        forall|e: int|
            0 <= e < check_manifests(v, digests).missing_examples.len() ==> names_a_missing_file(
                v,
                digests,
                #[trigger] check_manifests(v, digests).missing_examples[e],
            ),
        check_manifests(v, digests).missing_examples.len() > 0 <==> check_manifests(
            v,
            digests,
        ).blobs_missing > 0,
    decreases digests.len(),
{
    if digests.len() > 0 {
        let init = digests.drop_last();
        let n = digests.len() - 1;
        let digest = digests.last();
        assert(digests[n] == digest);
        examples_name_missing_files(v, init);
        every_manifest_is_counted_once(v, init);
        let before = check_manifests(v, init);
        assert forall|e: int| 0 <= e < before.missing_examples.len() implies names_a_missing_file(
            v,
            digests,
            #[trigger] before.missing_examples[e],
        ) by {
            lemma_named_longer(v, digests, before.missing_examples[e]);
        }
        let seen = CheckView {
            manifests_total: before.manifests_total + 1,
            referenced: before.referenced.insert(digest),
            ..before
        };
        if hash::is_hex_digest(digest) {
            if let Ok(m) = v.manifest(digest) {
                lemma_examples(v, digests, seen, n, m.files.len() as int);
                assert(m.files.take(m.files.len() as int) =~= m.files);
            }
        }
    }
}

/// An export of a version writes every file of its manifest, in order, from the blob that it was
/// stored as to its path in the directory; and it is refused only if the version is not there, its
/// manifest cannot be read, or a path in it leads out of the directory.
pub proof fn export_writes_every_file(v: LibraryView, version_id: i64, dest: Seq<char>)
    ensures
        export_of(v, version_id, dest) matches Ok(files) ==> v.version(version_id) matches Some(row)
            && (v.manifest(row.manifest_hash) matches Ok(m) && files.len() == m.files.len()
            && forall|i: int|
            0 <= i < m.files.len() ==> (#[trigger] files[i]).blob == m.files[i].sha256
                && files[i].target == paths::joined(dest, m.files[i].path)),
        v.version(version_id) matches Some(row) ==> hash::is_hex_digest(row.manifest_hash) ==> (
        v.manifest(row.manifest_hash) matches Ok(m) ==> (forall|i: int|
            0 <= i < m.files.len() ==> paths::leads_inside((#[trigger] m.files[i]).path))
            ==> export_of(v, version_id, dest) is Ok),
{
    if let Some(row) = v.version(version_id) {
        if let Ok(m) = v.manifest(row.manifest_hash) {
            manifest::lemma_first_stray(m.files);
        }
    }
}

/// A check that looks at one more manifest counts it once: as good if it can be read, as invalid if
/// its hash is no digest or what it holds makes no sense, and as missing if it is not there, is
/// damaged or could not be read.
pub proof fn manifests_are_told_apart(v: LibraryView, digests: Seq<Seq<char>>, digest: Seq<char>)
    ensures
        ({
            let before = check_manifests(v, digests);
            let after = check_manifests(v, digests.push(digest));
            let invalid = !hash::is_hex_digest(digest) || (v.manifests.contains_key(digest)
                && v.manifests[digest].blob is Malformed);
            let good = hash::is_hex_digest(digest) && v.manifests.contains_key(digest)
                && v.manifests[digest].blob is Decoded;
            &&& after.manifests_total == before.manifests_total + 1
            &&& after.manifests_invalid == before.manifests_invalid + (if invalid {
                1int
            } else {
                0int
            })
            &&& after.manifests_ok == before.manifests_ok + (if good {
                1int
            } else {
                0int
            })
            &&& after.manifests_missing == before.manifests_missing + (if invalid || good {
                0int
            } else {
                1int
            })
        }),
{
    let all = digests.push(digest);
    assert(all.drop_last() =~= digests);
    let before = check_manifests(v, digests);
    if hash::is_hex_digest(digest) {
        if let Ok(m) = v.manifest(digest) {
            let seen = CheckView {
                manifests_total: before.manifests_total + 1,
                referenced: before.referenced.insert(digest),
                ..before
            };
            lemma_check_files(v, seen, m.document_id, m.files);
        }
    }
}

/// The report of a check counts every file that was looked at, those that are damaged and those
/// that nothing needs, and shows as many of the latter as it has room for.
pub proof fn report_counts_what_was_found(r: VerifyReport, c: CheckView, files: Seq<BlobFile>)
    requires
        r.shows(c, files),
    ensures
        r.manifests_total == c.manifests_total,
        r.manifests_ok == c.manifests_ok,
        r.manifests_missing == c.manifests_missing,
        r.manifests_invalid == c.manifests_invalid,
        c.blobs_missing <= usize::MAX ==> r.blobs_missing == c.blobs_missing,
        r.missing_examples.deep_view() == c.missing_examples,
        r.blobs_total == files.len(),
        r.blobs_corrupted == corrupted_count(files),
        r.blobs_orphan == orphans(c.referenced, files).len(),
        r.orphan_examples.deep_view() == first_examples(orphans(c.referenced, files)),
{
}

} // verus!
