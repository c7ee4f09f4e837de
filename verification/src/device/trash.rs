//! Emptying the tablet's trash, and finding what interrupted uploads have left behind.

use vstd::prelude::*;

use crate::device;
use crate::device::listing;
use crate::device::sftp;
use crate::device::DeviceError;
use crate::device::DeviceErrorView;
use crate::device::DirEntry;
use crate::device::DirEntryView;
use crate::json;
use crate::text;

verus! {

/// Whether metadata marks a document as deleted.
pub open spec fn marked_deleted(metadata: Seq<u8>) -> bool {
    match json::parsed_json(metadata) {
        Ok(v) => json::flag_field(v, "deleted"@) == Some(true),
        Err(_) => false,
    }
}

/// Tells whether metadata marks a document as deleted.
pub fn is_marked_deleted(metadata: &[u8]) -> (r: bool)
    ensures
        r == marked_deleted(metadata@),
{
    match json::parse(metadata) {
        Ok(v) => match json::get_flag(&v, "deleted") {
            Some(b) => b,
            None => false,
        },
        Err(_) => false,
    }
}

/// A step for the caller to take.
#[derive(Debug)]
pub enum PurgeStep {
    /// List a directory.
    List(String),
    /// Read a file.
    Read(String),
    /// Delete a document with all its files.
    Delete(String),
    /// Make the tablet read its documents anew.
    Refresh,
    /// Nothing is left to do.
    Finished,
}

/// The model of a [`PurgeStep`].
pub enum PurgeStepView {
    List(Seq<char>),
    Read(Seq<char>),
    Delete(Seq<char>),
    Refresh,
    Finished,
}

impl DeepView for PurgeStep {
    type V = PurgeStepView;

    open spec fn deep_view(&self) -> PurgeStepView {
        match *self {
            PurgeStep::List(p) => PurgeStepView::List(p@),
            PurgeStep::Read(p) => PurgeStepView::Read(p@),
            PurgeStep::Delete(u) => PurgeStepView::Delete(u@),
            PurgeStep::Refresh => PurgeStepView::Refresh,
            PurgeStep::Finished => PurgeStepView::Finished,
        }
    }
}

enum State {
    Start,
    Scan { todo: Vec<String>, found: Vec<String> },
    Delete { todo: Vec<String>, removed: Vec<String> },
    Refresh { removed: Vec<String> },
    Finished(Result<Vec<String>, DeviceError>),
}

/// The model of a [`Purge`].
pub enum PurgeView {
    /// Nothing has been done.
    Start,
    /// The metadata that is still to be read, and the deleted documents so far.
    Scan { todo: Seq<Seq<char>>, found: Seq<Seq<char>> },
    /// The documents that are still to be removed, and those that are.
    Delete { todo: Seq<Seq<char>>, removed: Seq<Seq<char>> },
    /// The documents that are removed, of which the tablet does not know yet.
    Refresh { removed: Seq<Seq<char>> },
    Finished(Result<Seq<Seq<char>>, DeviceErrorView>),
}

/// Goes on reading metadata.
pub open spec fn scan_on(todo: Seq<Seq<char>>, found: Seq<Seq<char>>) -> PurgeView {
    if todo.len() > 0 {
        PurgeView::Scan { todo, found }
    } else if found.len() > 0 {
        PurgeView::Delete { todo: found, removed: seq![] }
    } else {
        PurgeView::Finished(Ok(seq![]))
    }
}

/// The step that comes next.
pub open spec fn next_step(dir: Seq<char>, v: PurgeView) -> PurgeStepView {
    match v {
        PurgeView::Start => PurgeStepView::List(dir),
        PurgeView::Scan { todo, found } => PurgeStepView::Read(
            listing::metadata_path(dir, todo[0]),
        ),
        PurgeView::Delete { todo, removed } => PurgeStepView::Delete(todo[0]),
        PurgeView::Refresh { removed } => PurgeStepView::Refresh,
        PurgeView::Finished(_) => PurgeStepView::Finished,
    }
}

/// What follows on the listing of the document directory.
pub open spec fn after_listing(r: Result<Seq<DirEntryView>, DeviceErrorView>) -> PurgeView {
    match r {
        Ok(entries) => scan_on(listing::described_in(entries), seq![]),
        Err(e) => PurgeView::Finished(Err(e)),
    }
}

/// What follows on reading metadata. What cannot be read is passed by.
pub open spec fn after_read(v: PurgeView, r: Option<Seq<u8>>) -> PurgeView {
    match v {
        PurgeView::Scan { todo, found } => scan_on(
            todo.skip(1),
            if r is Some && marked_deleted(r->0) {
                found.push(todo[0])
            } else {
                found
            },
        ),
        _ => v,
    }
}

/// What follows on deleting a document, or on the tablet reading its documents anew. Only a
/// document whose deletion went well counts as removed.
pub open spec fn after_action(v: PurgeView, good: bool) -> PurgeView {
    match v {
        PurgeView::Delete { todo, removed } => {
            let now = if good {
                removed.push(todo[0])
            } else {
                removed
            };
            if todo.len() > 1 {
                PurgeView::Delete { todo: todo.skip(1), removed: now }
            } else {
                PurgeView::Refresh { removed: now }
            }
        },
        PurgeView::Refresh { removed } => PurgeView::Finished(Ok(removed)),
        _ => v,
    }
}

/// Whether there is something to do where there has to be.
pub open spec fn purge_wf(v: PurgeView) -> bool {
    match v {
        PurgeView::Scan { todo, found } => todo.len() > 0,
        PurgeView::Delete { todo, removed } => todo.len() > 0,
        _ => true,
    }
}

/// The work of emptying the tablet's trash.
pub struct Purge {
    dir: String,
    state: State,
}

impl Purge {
    /// The document directory.
    pub closed spec fn dir(&self) -> Seq<char> {
        self.dir@
    }

    /// How far the work has come.
    pub closed spec fn view(&self) -> PurgeView {
        match self.state {
            State::Start => PurgeView::Start,
            State::Scan { todo, found } => PurgeView::Scan {
                todo: todo.deep_view(),
                found: found.deep_view(),
            },
            State::Delete { todo, removed } => PurgeView::Delete {
                todo: todo.deep_view(),
                removed: removed.deep_view(),
            },
            State::Refresh { removed } => PurgeView::Refresh { removed: removed.deep_view() },
            State::Finished(r) => PurgeView::Finished(device::device_outcome(r)),
        }
    }

    /// Whether there is something to do where there has to be.
    pub open spec fn wf(&self) -> bool {
        purge_wf(self@)
    }

    /// Starts on a document directory.
    pub fn new(dir: &str) -> (p: Self)
        ensures
            p.wf(),
            p.dir() == dir@,
            p@ == PurgeView::Start,
    {
        Purge { dir: dir.to_owned(), state: State::Start }
    }

    /// The step that comes next.
    pub fn step(&self) -> (s: PurgeStep)
        requires
            self.wf(),
        ensures
            s.deep_view() == next_step(self.dir(), self@),
    {
        match &self.state {
            State::Start => PurgeStep::List(self.dir.clone()),
            State::Scan { todo, found: _ } => {
                assert(todo.deep_view().len() == todo@.len());
                assert(todo.deep_view()[0] == todo@[0]@);
                PurgeStep::Read(listing::path_of_metadata(self.dir.as_str(), todo[0].as_str()))
            },
            State::Delete { todo, removed: _ } => {
                assert(todo.deep_view().len() == todo@.len());
                assert(todo.deep_view()[0] == todo@[0]@);
                PurgeStep::Delete(todo[0].clone())
            },
            State::Refresh { removed: _ } => PurgeStep::Refresh,
            State::Finished(_) => PurgeStep::Finished,
        }
    }

    /// Takes in the listing of the document directory.
    pub fn listed(self, r: Result<Vec<DirEntry>, DeviceError>) -> (p: Self)
        requires
            next_step(self.dir(), self@) is List,
        ensures
            p.wf(),
            p.dir() == self.dir(),
            p@ == after_listing(device::device_outcome(r)),
    {
        let state = match r {
            Ok(entries) => {
                let found: Vec<String> = Vec::new();
                assert(found.deep_view() =~= seq![]);
                keep_scanning(listing::collect_described(&entries), found)
            },
            Err(e) => State::Finished(Err(e)),
        };
        Purge { dir: self.dir, state }
    }

    /// Takes in metadata, if it could be read.
    pub fn read(self, r: Option<Vec<u8>>) -> (p: Self)
        requires
            self.wf(),
            next_step(self.dir(), self@) is Read,
        ensures
            p.wf(),
            p.dir() == self.dir(),
            p@ == after_read(
                self@,
                match r {
                    Some(bytes) => Some(bytes@),
                    None => None,
                },
            ),
    {
        let Purge { dir, state } = self;
        let state = match state {
            State::Scan { todo, found } => {
                let mut todo = todo;
                let mut found = found;
                let ghost names = todo.deep_view();
                let ghost before = found.deep_view();
                assert(names.len() == todo@.len());
                let uuid = todo.remove(0);
                assert(uuid@ == names[0]);
                assert(todo.deep_view() =~= names.skip(1));
                let deleted = match r {
                    Some(bytes) => is_marked_deleted(bytes.as_slice()),
                    None => false,
                };
                if deleted {
                    found.push(uuid);
                    assert(found.deep_view() =~= before.push(uuid@));
                }
                keep_scanning(todo, found)
            },
            other => other,
        };
        Purge { dir, state }
    }

    /// Takes in whether a document could be deleted, or the tablet made to read its documents
    /// anew.
    pub fn done(self, good: bool) -> (p: Self)
        requires
            self.wf(),
            next_step(self.dir(), self@) is Delete || next_step(self.dir(), self@) is Refresh,
        ensures
            p.wf(),
            p.dir() == self.dir(),
            p@ == after_action(self@, good),
    {
        let Purge { dir, state } = self;
        let state = match state {
            State::Delete { todo, removed } => {
                let mut todo = todo;
                let mut removed = removed;
                let ghost names = todo.deep_view();
                let ghost before = removed.deep_view();
                assert(names.len() == todo@.len());
                let uuid = todo.remove(0);
                assert(uuid@ == names[0]);
                assert(todo.deep_view() =~= names.skip(1));
                assert(todo.deep_view().len() == todo@.len());
                if good {
                    removed.push(uuid);
                    assert(removed.deep_view() =~= before.push(uuid@));
                }
                if todo.len() > 0 {
                    State::Delete { todo, removed }
                } else {
                    State::Refresh { removed }
                }
            },
            State::Refresh { removed } => State::Finished(Ok(removed)),
            other => other,
        };
        Purge { dir, state }
    }

    /// The documents that were removed; or what went wrong.
    pub fn finish(self) -> (r: Result<Vec<String>, DeviceError>)
        requires
            self@ is Finished,
        ensures
            self@ == PurgeView::Finished(device::device_outcome(r)),
    {
        match self.state {
            State::Finished(r) => r,
            _ => Ok(Vec::new()),
        }
    }
}

fn keep_scanning(todo: Vec<String>, found: Vec<String>) -> (s: State)
    ensures
        ({
            let v = match s {
                State::Start => PurgeView::Start,
                State::Scan { todo, found } => PurgeView::Scan {
                    todo: todo.deep_view(),
                    found: found.deep_view(),
                },
                State::Delete { todo, removed } => PurgeView::Delete {
                    todo: todo.deep_view(),
                    removed: removed.deep_view(),
                },
                State::Refresh { removed } => PurgeView::Refresh { removed: removed.deep_view() },
                State::Finished(r) => PurgeView::Finished(device::device_outcome(r)),
            };
            v == scan_on(todo.deep_view(), found.deep_view())
        }),
{
    assert(todo.deep_view().len() == todo@.len());
    assert(found.deep_view().len() == found@.len());
    if todo.len() > 0 {
        State::Scan { todo, found }
    } else {
        let none: Vec<String> = Vec::new();
        assert(none.deep_view() =~= seq![]);
        if found.len() > 0 {
            State::Delete { todo: found, removed: none }
        } else {
            State::Finished(Ok(none))
        }
    }
}

/// The files of which a directory holds a backup.
pub open spec fn backed_up_in(entries: Seq<DirEntryView>) -> Seq<Seq<char>>
    decreases entries.len(),
{
    if entries.len() == 0 {
        seq![]
    } else {
        let rest = backed_up_in(entries.drop_last());
        let name = entries.last().name;
        match text::stripped(name, ".rehydrate-bak"@) {
            Some(live) => if device::is_safe_name(name) {
                rest.push(live)
            } else {
                rest
            },
            None => rest,
        }
    }
}

/// Finds the files of which a directory holds a backup. A backup without its file is what an
/// interrupted upload has left behind.
pub fn backed_up(entries: &Vec<DirEntry>) -> (names: Vec<String>)
    ensures
        names.deep_view() == backed_up_in(entries.deep_view()),
{
    let ghost all = entries.deep_view();
    let mut names: Vec<String> = Vec::new();
    let mut i: usize = 0;
    proof {
        assert(all.take(0) =~= seq![]);
        assert(names.deep_view() =~= seq![]);
    }
    while i < entries.len()
        invariant
            all == entries.deep_view(),
            i <= entries.len(),
            names.deep_view() == backed_up_in(all.take(i as int)),
        decreases entries.len() - i,
    {
        proof {
            assert(all.take(i + 1).drop_last() =~= all.take(i as int));
            assert(all.take(i + 1).last() == entries[i as int].deep_view());
        }
        let name = entries[i].name.as_str();
        if device::is_safe_entry_name(name) {
            if let Some(live) = text::strip_suffix(name, ".rehydrate-bak") {
                let ghost before = names.deep_view();
                let copy = live.to_owned();
                names.push(copy);
                assert(names.deep_view() =~= before.push(copy@));
            }
        }
        i = i + 1;
    }
    assert(all.take(all.len() as int) =~= all);
    names
}

/// The backups whose files are gone, given which files are there.
pub open spec fn stranded_of(
    dir: Seq<char>,
    names: Seq<Seq<char>>,
    present: Seq<bool>,
) -> Seq<Seq<char>>
    decreases names.len(),
{
    if names.len() == 0 {
        seq![]
    } else {
        let rest = stranded_of(dir, names.drop_last(), present);
        if present[names.len() - 1] {
            rest
        } else {
            rest.push(device::child_path(dir, sftp::backup(names.last())))
        }
    }
}

/// The backups whose files are gone, given which files are there.
pub fn stranded_backups(dir: &str, names: &Vec<String>, present: &Vec<bool>) -> (r: Vec<String>)
    requires
        names@.len() == present@.len(),
    ensures
        r.deep_view() == stranded_of(dir@, names.deep_view(), present@),
{
    let ghost all = names.deep_view();
    let mut r: Vec<String> = Vec::new();
    let mut i: usize = 0;
    proof {
        assert(all.take(0) =~= seq![]);
        assert(r.deep_view() =~= seq![]);
    }
    while i < names.len()
        invariant
            all == names.deep_view(),
            names@.len() == present@.len(),
            i <= names.len(),
            r.deep_view() == stranded_of(dir@, all.take(i as int), present@),
        decreases names.len() - i,
    {
        proof {
            assert(all.take(i + 1).drop_last() =~= all.take(i as int));
            assert(all.take(i + 1).last() == names[i as int]@);
        }
        if !present[i] {
            let ghost before = r.deep_view();
            let bak = sftp::backup_path(names[i].as_str());
            let path = device::child(dir, bak.as_str());
            r.push(path);
            assert(r.deep_view() =~= before.push(path@));
        }
        i = i + 1;
    }
    assert(all.take(all.len() as int) =~= all);
    r
}

/// What came of a step past the first: metadata, if it could be read; or whether a document could
/// be deleted, or the tablet made to read its documents anew.
pub enum PurgeReply {
    Read(Option<Seq<u8>>),
    Action(bool),
}

/// Whether a reply is metadata that marks a document as deleted.
pub open spec fn tells_deleted(r: PurgeReply) -> bool {
    r matches PurgeReply::Read(Some(bytes)) && (json::parsed_json(bytes) matches Ok(v)
        && json::flag_field(v, "deleted"@) == Some(true))
}

/// Whether the emptying of the trash goes through the given states, from the listing of the
/// document directory on, when its steps come out as given.
pub open spec fn is_run(
    dir: Seq<char>,
    entries: Seq<DirEntryView>,
    states: Seq<PurgeView>,
    replies: Seq<PurgeReply>,
) -> bool {
    &&& states.len() == replies.len() + 1
    &&& states[0] == after_listing(Ok(entries))
    &&& forall|k: int|
        0 <= k < replies.len() ==> match #[trigger] replies[k] {
            PurgeReply::Read(r) => next_step(dir, states[k]) is Read && states[k + 1] == after_read(
                states[k],
                r,
            ),
            PurgeReply::Action(good) => (next_step(dir, states[k]) is Delete || next_step(
                dir,
                states[k],
            ) is Refresh) && states[k + 1] == after_action(states[k], good),
        }
}

/// Those of the first `k` documents whose metadata marks them as deleted.
spec fn marked_among(
    uuids: Seq<Seq<char>>,
    replies: Seq<PurgeReply>,
    k: int,
) -> Seq<Seq<char>>
    decreases k,
{
    if k <= 0 {
        seq![]
    } else {
        let rest = marked_among(uuids, replies, k - 1);
        if tells_deleted(replies[k - 1]) {
            rest.push(uuids[k - 1])
        } else {
            rest
        }
    }
}

proof fn lemma_marked_among(
    uuids: Seq<Seq<char>>,
    replies: Seq<PurgeReply>,
    k: int,
    uuid: Seq<char>,
)
    requires
        0 <= k <= uuids.len(),
    ensures
        marked_among(uuids, replies, k).contains(uuid) <==> exists|i: int|
            0 <= i < k && #[trigger] uuids[i] == uuid && tells_deleted(replies[i]),
    decreases k,
{
    if k > 0 {
        lemma_marked_among(uuids, replies, k - 1, uuid);
        let rest = marked_among(uuids, replies, k - 1);
        let all = marked_among(uuids, replies, k);
        if rest.contains(uuid) {
            let j = choose|j: int| 0 <= j < rest.len() && rest[j] == uuid;
            assert(all[j] == uuid);
        }
        if tells_deleted(replies[k - 1]) && uuids[k - 1] == uuid {
            assert(all[all.len() - 1] == uuid);
        }
        if all.contains(uuid) && !rest.contains(uuid) {
            let j = choose|j: int| 0 <= j < all.len() && all[j] == uuid;
            if j < rest.len() {
                assert(rest[j] == uuid);
            }
            assert(uuids[k - 1] == uuid);
        }
    }
}

/// Those of the first `k` documents that could be removed.
spec fn removed_among(
    uuids: Seq<Seq<char>>,
    replies: Seq<PurgeReply>,
    from: int,
    k: int,
) -> Seq<Seq<char>>
    decreases k,
{
    if k <= 0 {
        seq![]
    } else {
        let rest = removed_among(uuids, replies, from, k - 1);
        if replies[from + k - 1] == PurgeReply::Action(true) {
            rest.push(uuids[k - 1])
        } else {
            rest
        }
    }
}

proof fn lemma_removed_among(
    uuids: Seq<Seq<char>>,
    replies: Seq<PurgeReply>,
    from: int,
    k: int,
    uuid: Seq<char>,
)
    requires
        0 <= k <= uuids.len(),
    ensures
        removed_among(uuids, replies, from, k).contains(uuid) <==> exists|i: int|
            0 <= i < k && #[trigger] uuids[i] == uuid && replies[from + i] == PurgeReply::Action(
                true,
            ),
    decreases k,
{
    if k > 0 {
        lemma_removed_among(uuids, replies, from, k - 1, uuid);
        let rest = removed_among(uuids, replies, from, k - 1);
        let all = removed_among(uuids, replies, from, k);
        if rest.contains(uuid) {
            let j = choose|j: int| 0 <= j < rest.len() && rest[j] == uuid;
            assert(all[j] == uuid);
        }
        if replies[from + k - 1] == PurgeReply::Action(true) && uuids[k - 1] == uuid {
            assert(all[all.len() - 1] == uuid);
        }
        if all.contains(uuid) && !rest.contains(uuid) {
            let j = choose|j: int| 0 <= j < all.len() && all[j] == uuid;
            if j < rest.len() {
                assert(rest[j] == uuid);
            }
            assert(uuids[k - 1] == uuid);
        }
    }
}

proof fn lemma_scan(
    dir: Seq<char>,
    entries: Seq<DirEntryView>,
    states: Seq<PurgeView>,
    replies: Seq<PurgeReply>,
    k: int,
)
    requires
        is_run(dir, entries, states, replies),
        0 <= k <= listing::described_in(entries).len(),
        k <= replies.len(),
    ensures
        states[k] == scan_on(
            listing::described_in(entries).skip(k),
            marked_among(listing::described_in(entries), replies, k),
        ),
    decreases k,
{
    let uuids = listing::described_in(entries);
    if k == 0 {
        assert(uuids.skip(0) =~= uuids);
    } else {
        lemma_scan(dir, entries, states, replies, k - 1);
        let r = replies[k - 1];
        assert(uuids.skip(k - 1).skip(1) =~= uuids.skip(k));
        assert(uuids.skip(k - 1)[0] == uuids[k - 1]);
    }
}

proof fn lemma_deletions(
    dir: Seq<char>,
    entries: Seq<DirEntryView>,
    states: Seq<PurgeView>,
    replies: Seq<PurgeReply>,
    j: int,
)
    requires
        is_run(dir, entries, states, replies),
        ({
            let uuids = listing::described_in(entries);
            let found = marked_among(uuids, replies, uuids.len() as int);
            &&& 0 <= j <= found.len()
            &&& found.len() > 0
            &&& uuids.len() + j <= replies.len()
        }),
    ensures
        ({
            let uuids = listing::described_in(entries);
            let n = uuids.len() as int;
            let found = marked_among(uuids, replies, n);
            let removed = removed_among(found, replies, n, j);
            states[n + j] == (if j < found.len() {
                PurgeView::Delete { todo: found.skip(j), removed }
            } else {
                PurgeView::Refresh { removed }
            })
        }),
    decreases j,
{
    let uuids = listing::described_in(entries);
    let n = uuids.len() as int;
    let found = marked_among(uuids, replies, n);
    if j == 0 {
        lemma_scan(dir, entries, states, replies, n);
        assert(found.skip(0) =~= found);
        assert(uuids.skip(n).len() == 0);
    } else {
        lemma_deletions(dir, entries, states, replies, j - 1);
        let r = replies[n + j - 1];
        assert(found.skip(j - 1).skip(1) =~= found.skip(j));
        assert(found.skip(j - 1)[0] == found[j - 1]);
    }
}

/// The steps that a finished emptying of the trash has taken, one after the other.
proof fn lemma_steps(
    dir: Seq<char>,
    entries: Seq<DirEntryView>,
    states: Seq<PurgeView>,
    replies: Seq<PurgeReply>,
    removed: Seq<Seq<char>>,
)
    requires
        is_run(dir, entries, states, replies),
        states.last() == PurgeView::Finished(Ok(removed)),
    ensures
        ({
            let uuids = listing::described_in(entries);
            let n = uuids.len() as int;
            let found = marked_among(uuids, replies, n);
            let m = found.len() as int;
            &&& replies.len() == (if m == 0 {
                n
            } else {
                n + m + 1
            })
            &&& removed == removed_among(found, replies, n, m)
            &&& forall|k: int|
                0 <= k < replies.len() ==> #[trigger] next_step(dir, states[k]) == (if k < n {
                    PurgeStepView::Read(dir + "/"@ + uuids[k] + ".metadata"@)
                } else if k < n + m {
                    PurgeStepView::Delete(found[k - n])
                } else {
                    PurgeStepView::Refresh
                })
        }),
{
    let uuids = listing::described_in(entries);
    let n = uuids.len() as int;
    assert forall|i: int| 0 <= i < n implies i < replies.len() && next_step(dir, states[i])
        == PurgeStepView::Read(dir + "/"@ + #[trigger] uuids[i] + ".metadata"@) by {
        if i >= replies.len() {
            lemma_scan(dir, entries, states, replies, replies.len() as int);
        } else {
            lemma_scan(dir, entries, states, replies, i);
            assert(uuids.skip(i)[0] == uuids[i]);
            assert(dir + "/"@ + (uuids[i] + ".metadata"@) =~= dir + "/"@ + uuids[i]
                + ".metadata"@);
        }
    }
    if n > 0 {
        let last = uuids[n - 1];
    }
    assert(n <= replies.len());
    lemma_scan(dir, entries, states, replies, n);
    assert(uuids.skip(n).len() == 0);
    let found = marked_among(uuids, replies, n);
    let m = found.len() as int;
    if m == 0 {
        if n < replies.len() {
            let r = replies[n];
        }
        assert(removed =~= seq![]);
        assert forall|k: int| 0 <= k < replies.len() implies #[trigger] next_step(dir, states[k])
            == PurgeStepView::Read(dir + "/"@ + uuids[k] + ".metadata"@) by {
            let x = uuids[k];
        }
    } else {
        if replies.len() <= n + m {
            lemma_deletions(dir, entries, states, replies, replies.len() - n);
        }
        lemma_deletions(dir, entries, states, replies, m);
        let r = replies[n + m];
        assert(states[n + m + 1] == PurgeView::Finished(Ok(removed_among(found, replies, n, m))));
        if n + m + 1 < replies.len() {
            let x = replies[n + m + 1];
        }
        assert forall|k: int| 0 <= k < replies.len() implies #[trigger] next_step(dir, states[k])
            == (if k < n {
            PurgeStepView::Read(dir + "/"@ + uuids[k] + ".metadata"@)
        } else if k < n + m {
            PurgeStepView::Delete(found[k - n])
        } else {
            PurgeStepView::Refresh
        }) by {
            if k >= n {
                lemma_deletions(dir, entries, states, replies, k - n);
                if k < n + m {
                    assert(found.skip(k - n)[0] == found[k - n]);
                }
            } else {
                let x = uuids[k];
            }
        }
    }
}

/// Emptying the trash reads the metadata of every document and folder in the document directory,
/// deletes those that their metadata marks as deleted and no others, and then makes the tablet
/// read its documents anew.
pub proof fn trash_is_emptied(
    dir: Seq<char>,
    entries: Seq<DirEntryView>,
    states: Seq<PurgeView>,
    replies: Seq<PurgeReply>,
    removed: Seq<Seq<char>>,
)
    requires
        is_run(dir, entries, states, replies),
        states.last() == PurgeView::Finished(Ok(removed)),
    ensures
        ({
            let uuids = listing::described_in(entries);
            &&& uuids.len() <= replies.len()
            &&& forall|i: int|
                0 <= i < uuids.len() ==> #[trigger] next_step(dir, states[i])
                    == PurgeStepView::Read(dir + "/"@ + uuids[i] + ".metadata"@)
            &&& forall|k: int|
                0 <= k < replies.len() ==> (#[trigger] next_step(
                    dir,
                    states[k],
                ) matches PurgeStepView::Delete(uuid) ==> exists|i: int|
                    0 <= i < uuids.len() && #[trigger] uuids[i] == uuid && tells_deleted(
                        replies[i],
                    ))
            &&& forall|i: int|
                0 <= i < uuids.len() && #[trigger] tells_deleted(replies[i]) ==> exists|k: int|
                    0 <= k < replies.len() && #[trigger] next_step(dir, states[k])
                        == PurgeStepView::Delete(uuids[i])
            &&& forall|k: int|
                0 <= k < replies.len() && #[trigger] next_step(dir, states[k]) is Delete
                    ==> next_step(dir, states[replies.len() - 1]) is Refresh
        }),
{
    let uuids = listing::described_in(entries);
    let n = uuids.len() as int;
    let found = marked_among(uuids, replies, n);
    let m = found.len() as int;
    lemma_steps(dir, entries, states, replies, removed);
    assert forall|k: int| 0 <= k < replies.len() implies (#[trigger] next_step(
        dir,
        states[k],
    ) matches PurgeStepView::Delete(uuid) ==> exists|i: int|
        0 <= i < n && #[trigger] uuids[i] == uuid && tells_deleted(replies[i])) by {
        if n <= k < n + m {
            assert(found.contains(found[k - n]));
            lemma_marked_among(uuids, replies, n, found[k - n]);
        }
    }
    assert forall|i: int| 0 <= i < n && #[trigger] tells_deleted(replies[i]) implies exists|k: int|
        0 <= k < replies.len() && #[trigger] next_step(dir, states[k]) == PurgeStepView::Delete(
            uuids[i],
        ) by {
        lemma_marked_among(uuids, replies, n, uuids[i]);
        let j = choose|j: int| 0 <= j < found.len() && found[j] == uuids[i];
        assert(next_step(dir, states[n + j]) == PurgeStepView::Delete(uuids[i]));
    }
}

/// Emptying the trash reports the documents whose deletion went well, and no others.
pub proof fn emptied_trash_is_reported(
    dir: Seq<char>,
    entries: Seq<DirEntryView>,
    states: Seq<PurgeView>,
    replies: Seq<PurgeReply>,
    removed: Seq<Seq<char>>,
    uuid: Seq<char>,
)
    requires
        is_run(dir, entries, states, replies),
        states.last() == PurgeView::Finished(Ok(removed)),
    ensures
        removed.contains(uuid) <==> exists|k: int|
            0 <= k < replies.len() && #[trigger] next_step(dir, states[k]) == PurgeStepView::Delete(
                uuid,
            ) && replies[k] == PurgeReply::Action(true),
{
    let uuids = listing::described_in(entries);
    let n = uuids.len() as int;
    let found = marked_among(uuids, replies, n);
    let m = found.len() as int;
    lemma_steps(dir, entries, states, replies, removed);
    lemma_removed_among(found, replies, n, m, uuid);
    if removed.contains(uuid) {
        let i = choose|i: int|
            0 <= i < m && #[trigger] found[i] == uuid && replies[n + i] == PurgeReply::Action(true);
        assert(next_step(dir, states[n + i]) == PurgeStepView::Delete(uuid));
    }
    if exists|k: int|
        0 <= k < replies.len() && #[trigger] next_step(dir, states[k]) == PurgeStepView::Delete(
            uuid,
        ) && replies[k] == PurgeReply::Action(true) {
        let k = choose|k: int|
            0 <= k < replies.len() && #[trigger] next_step(dir, states[k]) == PurgeStepView::Delete(
                uuid,
            ) && replies[k] == PurgeReply::Action(true);
        assert(found[k - n] == uuid);
        assert(replies[n + (k - n)] == PurgeReply::Action(true));
    }
}

/// Every backup in a directory is found, and nothing else: the names that are found are those of
/// the directory that end in the mark of a backup, without it.
pub proof fn backups_are_found(entries: Seq<DirEntryView>)
    ensures
        forall|j: int|
            0 <= j < entries.len() && device::is_safe_name((#[trigger] entries[j]).name)
                && text::has_suffix(entries[j].name, ".rehydrate-bak"@) ==> exists|i: int|
                0 <= i < backed_up_in(entries).len() && #[trigger] backed_up_in(entries)[i]
                    + ".rehydrate-bak"@ == entries[j].name,
        forall|i: int|
            0 <= i < backed_up_in(entries).len() ==> exists|j: int|
                0 <= j < entries.len() && device::is_safe_name((#[trigger] entries[j]).name)
                    && entries[j].name == #[trigger] backed_up_in(entries)[i] + ".rehydrate-bak"@,
    decreases entries.len(),
{
    if entries.len() > 0 {
        let shorter = entries.drop_last();
        let rest = backed_up_in(shorter);
        let all = backed_up_in(entries);
        let n = entries.len() - 1;
        let name = entries.last().name;
        backups_are_found(shorter);
        assert(entries[n].name == name);
        if text::has_suffix(name, ".rehydrate-bak"@) {
            assert(name.take(name.len() - ".rehydrate-bak"@.len()) + ".rehydrate-bak"@ =~= name);
        }
        assert forall|j: int|
            0 <= j < entries.len() && device::is_safe_name((#[trigger] entries[j]).name)
                && text::has_suffix(entries[j].name, ".rehydrate-bak"@) implies exists|i: int|
            0 <= i < all.len() && #[trigger] all[i] + ".rehydrate-bak"@ == entries[j].name by {
            if j < n {
                assert(shorter[j] == entries[j]);
                let i = choose|i: int|
                    0 <= i < rest.len() && #[trigger] rest[i] + ".rehydrate-bak"@
                        == shorter[j].name;
                assert(all[i] == rest[i]);
            } else {
                assert(all[all.len() - 1] + ".rehydrate-bak"@ == name);
            }
        }
        assert forall|i: int| 0 <= i < all.len() implies exists|j: int|
            0 <= j < entries.len() && device::is_safe_name((#[trigger] entries[j]).name)
                && entries[j].name == #[trigger] all[i] + ".rehydrate-bak"@ by {
            if i < rest.len() {
                assert(all[i] == rest[i]);
                let j = choose|j: int|
                    0 <= j < shorter.len() && device::is_safe_name((#[trigger] shorter[j]).name)
                        && shorter[j].name == rest[i] + ".rehydrate-bak"@;
                assert(entries[j] == shorter[j]);
            } else {
                assert(entries[n].name == all[i] + ".rehydrate-bak"@);
            }
        }
    }
}

/// A backup is reported, by its path, if its file is gone, and only then.
pub proof fn stranded_backups_are_reported(
    dir: Seq<char>,
    names: Seq<Seq<char>>,
    present: Seq<bool>,
)
    requires
        names.len() <= present.len(),
    ensures
        forall|i: int|
            0 <= i < names.len() && !present[i] ==> stranded_of(dir, names, present).contains(
                dir + "/"@ + #[trigger] names[i] + ".rehydrate-bak"@,
            ),
        forall|k: int|
            0 <= k < stranded_of(dir, names, present).len() ==> exists|i: int|
                0 <= i < names.len() && !present[i] && #[trigger] stranded_of(
                    dir,
                    names,
                    present,
                )[k] == dir + "/"@ + #[trigger] names[i] + ".rehydrate-bak"@,
        stranded_of(dir, names, present).len() <= names.len(),
    decreases names.len(),
{
    if names.len() > 0 {
        let shorter = names.drop_last();
        let rest = stranded_of(dir, shorter, present);
        let all = stranded_of(dir, names, present);
        let n = names.len() - 1;
        stranded_backups_are_reported(dir, shorter, present);
        assert(dir + "/"@ + (names[n] + ".rehydrate-bak"@) =~= dir + "/"@ + names[n]
            + ".rehydrate-bak"@);
        assert forall|i: int| 0 <= i < names.len() && !present[i] implies all.contains(
            dir + "/"@ + #[trigger] names[i] + ".rehydrate-bak"@,
        ) by {
            let path = dir + "/"@ + names[i] + ".rehydrate-bak"@;
            if i < n {
                assert(shorter[i] == names[i]);
                assert(rest.contains(path));
                let k = choose|k: int| 0 <= k < rest.len() && rest[k] == path;
                assert(all[k] == path);
            } else {
                assert(all[all.len() - 1] == path);
            }
        }
        assert forall|k: int| 0 <= k < all.len() implies exists|i: int|
            0 <= i < names.len() && !present[i] && #[trigger] all[k] == dir + "/"@
                + #[trigger] names[i] + ".rehydrate-bak"@ by {
            if k < rest.len() {
                assert(all[k] == rest[k]);
                let i = choose|i: int|
                    0 <= i < shorter.len() && !present[i] && rest[k] == dir + "/"@
                        + #[trigger] shorter[i] + ".rehydrate-bak"@;
                assert(names[i] == shorter[i]);
            } else {
                assert(all[k] == dir + "/"@ + names[n] + ".rehydrate-bak"@);
            }
        }
    }
}

} // verus!
