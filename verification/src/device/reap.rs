//! Removing what a document no longer has.
//!
//! Once a document's files are in their places, whatever else the tablet holds of the document
//! is left over from before. It is removed, and with it the directories that are empty then.

use vstd::prelude::*;

use crate::device;
use crate::device::sftp;
use crate::device::DeviceError;
use crate::device::DeviceErrorView;
use crate::device::DirEntry;
use crate::device::DirEntryView;
use crate::text;

verus! {

/// A step for the caller to take.
#[derive(Debug)]
pub enum ReapStep {
    /// List a directory.
    List(String),
    /// Remove a file.
    RemoveFile(String),
    /// Remove a directory.
    RemoveDir(String),
    /// Nothing is left to do.
    Finished,
}

/// The model of a [`ReapStep`].
pub enum ReapStepView {
    List(Seq<char>),
    RemoveFile(Seq<char>),
    RemoveDir(Seq<char>),
    Finished,
}

impl DeepView for ReapStep {
    type V = ReapStepView;

    open spec fn deep_view(&self) -> ReapStepView {
        match *self {
            ReapStep::List(p) => ReapStepView::List(p@),
            ReapStep::RemoveFile(p) => ReapStepView::RemoveFile(p@),
            ReapStep::RemoveDir(p) => ReapStepView::RemoveDir(p@),
            ReapStep::Finished => ReapStepView::Finished,
        }
    }
}

/// Something in a directory that has to be seen to: a file that is left over, or a directory.
#[derive(Debug)]
pub struct ReapItem {
    pub name: String,
    pub is_dir: bool,
}

/// The model of a [`ReapItem`].
pub struct ReapItemView {
    pub name: Seq<char>,
    pub is_dir: bool,
}

impl DeepView for ReapItem {
    type V = ReapItemView;

    open spec fn deep_view(&self) -> ReapItemView {
        ReapItemView { name: self.name@, is_dir: self.is_dir }
    }
}

/// A directory that is being worked on.
#[derive(Debug)]
pub struct Frame {
    /// Its path on the tablet.
    pub dev: String,
    /// Its path as the document's files are named; empty for the document directory.
    pub rel: String,
    /// What is still to be seen to.
    pub todo: Vec<ReapItem>,
    /// Whether something in it stays.
    pub kept: bool,
    /// The first error that counts.
    pub first_err: Option<DeviceError>,
}

/// The model of a [`Frame`].
pub struct FrameView {
    pub dev: Seq<char>,
    pub rel: Seq<char>,
    pub todo: Seq<ReapItemView>,
    pub kept: bool,
    pub first_err: Option<DeviceErrorView>,
}

impl DeepView for Frame {
    type V = FrameView;

    open spec fn deep_view(&self) -> FrameView {
        FrameView {
            dev: self.dev@,
            rel: self.rel@,
            todo: self.todo.deep_view(),
            kept: self.kept,
            first_err: self.first_err.deep_view(),
        }
    }
}

/// The name of something in a directory, as the document's files are named. `rel` is the name of
/// the directory, which is empty for the document directory.
pub open spec fn child_rel(rel: Seq<char>, name: Seq<char>) -> Seq<char> {
    if rel.len() == 0 {
        name
    } else {
        device::child_path(rel, name)
    }
}

fn child_name(rel: &str, name: &str) -> (s: String)
    ensures
        s@ == child_rel(rel@, name@),
{
    if rel.is_empty() {
        name.to_owned()
    } else {
        device::child(rel, name)
    }
}

/// Whether an entry takes part: its name has to be that of something in the directory, and in the
/// document directory it has to belong to the document.
pub open spec fn takes_part(name: Seq<char>, rel: Seq<char>, uuid: Seq<char>) -> bool {
    device::is_safe_name(name) && (rel.len() == 0 ==> device::belongs_to(name, uuid))
}

/// What has to be seen to in a directory: the files that the document no longer has, and the
/// directories.
pub open spec fn leftovers(
    rel: Seq<char>,
    uuid: Seq<char>,
    desired: Seq<Seq<char>>,
    entries: Seq<DirEntryView>,
    files: bool,
    dirs: bool,
) -> Seq<ReapItemView>
    decreases entries.len(),
{
    if entries.len() == 0 {
        seq![]
    } else {
        let rest = leftovers(rel, uuid, desired, entries.drop_last(), files, dirs);
        let e = entries.last();
        if takes_part(e.name, rel, uuid) && (if e.is_dir {
            dirs
        } else {
            files && !desired.contains(child_rel(rel, e.name))
        }) {
            rest.push(ReapItemView { name: e.name, is_dir: e.is_dir })
        } else {
            rest
        }
    }
}

/// What has to be seen to in a directory, in order. In the document directory the files come
/// first.
pub open spec fn todo_of(
    rel: Seq<char>,
    uuid: Seq<char>,
    desired: Seq<Seq<char>>,
    entries: Seq<DirEntryView>,
) -> Seq<ReapItemView> {
    if rel.len() == 0 {
        leftovers(rel, uuid, desired, entries, true, false) + leftovers(
            rel,
            uuid,
            desired,
            entries,
            false,
            true,
        )
    } else {
        leftovers(rel, uuid, desired, entries, true, true)
    }
}

/// Whether a directory holds a file that the document has.
pub open spec fn has_desired(
    rel: Seq<char>,
    uuid: Seq<char>,
    desired: Seq<Seq<char>>,
    entries: Seq<DirEntryView>,
) -> bool {
    exists|i: int|
        0 <= i < entries.len() && !(#[trigger] entries[i]).is_dir && takes_part(
            entries[i].name,
            rel,
            uuid,
        ) && desired.contains(child_rel(rel, entries[i].name))
}

/// The directory as it was listed.
pub open spec fn opened(
    dev: Seq<char>,
    rel: Seq<char>,
    uuid: Seq<char>,
    desired: Seq<Seq<char>>,
    entries: Seq<DirEntryView>,
) -> FrameView {
    FrameView {
        dev,
        rel,
        todo: todo_of(rel, uuid, desired, entries),
        kept: has_desired(rel, uuid, desired, entries),
        first_err: None,
    }
}

/// A directory after something in it could not be removed, or is not empty.
pub open spec fn failed(f: FrameView, e: DeviceErrorView) -> FrameView {
    FrameView { kept: true, first_err: device::noted(f.first_err, e), ..f }
}

/// A directory after a removal. That there was nothing to remove is no failure.
pub open spec fn removal_noted(f: FrameView, r: Result<(), DeviceErrorView>) -> FrameView {
    match r {
        Ok(_) => f,
        Err(e) => if e is NotFound {
            f
        } else {
            failed(f, e)
        },
    }
}

/// A directory without the first thing to see to.
pub open spec fn advanced(f: FrameView) -> FrameView {
    FrameView { todo: f.todo.skip(1), ..f }
}

/// The report of directories that lie too deep inside one another.
pub open spec fn too_deep(dev: Seq<char>) -> DeviceErrorView {
    DeviceErrorView::Other("reap_subtree depth exceeds 16 at "@ + dev)
}

/// The directories with the innermost one replaced.
pub open spec fn with_top(frames: Seq<FrameView>, f: FrameView) -> Seq<FrameView> {
    frames.drop_last().push(f)
}

/// Leaves the directories in which nothing is left to see to, as long as something in them
/// stays, and passes by those that lie too deep.
pub open spec fn settled(frames: Seq<FrameView>) -> Seq<FrameView>
    decreases frames.len(), frames.last().todo.len(),
{
    if frames.len() == 0 {
        frames
    } else {
        let top = frames.last();
        if top.todo.len() > 0 {
            if top.todo[0].is_dir && frames.len() > sftp::MAX_SUBTREE_DEPTH + 1 {
                settled(
                    with_top(
                        frames,
                        failed(
                            advanced(top),
                            too_deep(device::child_path(top.dev, top.todo[0].name)),
                        ),
                    ),
                )
            } else {
                frames
            }
        } else if frames.len() == 1 {
            frames
        } else {
            let outer = frames.drop_last();
            match top.first_err {
                Some(e) => settled(with_top(outer, failed(outer.last(), e))),
                None => if top.kept {
                    settled(with_top(outer, FrameView { kept: true, ..outer.last() }))
                } else {
                    frames
                },
            }
        }
    }
}

/// The model of a [`Reap`].
pub enum ReapView {
    /// Nothing has been done.
    Start,
    /// The directories that are being worked on, each inside the one before it.
    Walk(Seq<FrameView>),
    /// The document directory could not be listed.
    Failed(DeviceErrorView),
}

/// The step that comes next.
pub open spec fn next_step(dir: Seq<char>, v: ReapView) -> ReapStepView {
    match v {
        ReapView::Start => ReapStepView::List(dir),
        ReapView::Walk(frames) => {
            let top = frames.last();
            if top.todo.len() > 0 {
                let path = device::child_path(top.dev, top.todo[0].name);
                if top.todo[0].is_dir {
                    ReapStepView::List(path)
                } else {
                    ReapStepView::RemoveFile(path)
                }
            } else if frames.len() == 1 {
                ReapStepView::Finished
            } else {
                ReapStepView::RemoveDir(top.dev)
            }
        },
        ReapView::Failed(_) => ReapStepView::Finished,
    }
}

/// What follows on a listing.
pub open spec fn after_listing(
    dir: Seq<char>,
    uuid: Seq<char>,
    desired: Seq<Seq<char>>,
    v: ReapView,
    r: Result<Seq<DirEntryView>, DeviceErrorView>,
) -> ReapView {
    match v {
        ReapView::Start => match r {
            Ok(entries) => ReapView::Walk(
                settled(seq![opened(dir, Seq::empty(), uuid, desired, entries)]),
            ),
            Err(e) => ReapView::Failed(e),
        },
        ReapView::Walk(frames) => {
            let top = frames.last();
            let name = top.todo[0].name;
            match r {
                Ok(entries) => ReapView::Walk(
                    settled(
                        with_top(frames, advanced(top)).push(
                            opened(
                                device::child_path(top.dev, name),
                                child_rel(top.rel, name),
                                uuid,
                                desired,
                                entries,
                            ),
                        ),
                    ),
                ),
                Err(e) => ReapView::Walk(settled(with_top(frames, failed(advanced(top), e)))),
            }
        },
        ReapView::Failed(_) => v,
    }
}

/// What follows on a removal.
pub open spec fn after_removal(v: ReapView, r: Result<(), DeviceErrorView>) -> ReapView {
    match v {
        ReapView::Walk(frames) => {
            let top = frames.last();
            if top.todo.len() > 0 {
                ReapView::Walk(settled(with_top(frames, removal_noted(advanced(top), r))))
            } else {
                let outer = frames.drop_last();
                ReapView::Walk(settled(with_top(outer, removal_noted(outer.last(), r))))
            }
        },
        _ => v,
    }
}

enum State {
    Start,
    Walk(Vec<Frame>),
    Failed(DeviceError),
}

/// The work of removing what one document no longer has.
pub struct Reap {
    dir: String,
    uuid: String,
    desired: Vec<String>,
    state: State,
}

impl Reap {
    /// The document directory.
    pub closed spec fn dir(&self) -> Seq<char> {
        self.dir@
    }

    /// The document.
    pub closed spec fn uuid(&self) -> Seq<char> {
        self.uuid@
    }

    /// The files that the document has.
    pub closed spec fn desired(&self) -> Seq<Seq<char>> {
        self.desired.deep_view()
    }

    /// How far the work has come.
    pub closed spec fn view(&self) -> ReapView {
        match self.state {
            State::Start => ReapView::Start,
            State::Walk(frames) => ReapView::Walk(frames.deep_view()),
            State::Failed(e) => ReapView::Failed(e.deep_view()),
        }
    }

    /// Whether the work is on some directory.
    pub open spec fn wf(&self) -> bool {
        self@ matches ReapView::Walk(frames) ==> frames.len() > 0
    }

    /// Starts on a document that has the given files.
    pub fn new(dir: &str, uuid: &str, desired: Vec<String>) -> (r: Self)
        ensures
            r.wf(),
            r.dir() == dir@,
            r.uuid() == uuid@,
            r.desired() == desired.deep_view(),
            r@ == ReapView::Start,
    {
        Reap { dir: dir.to_owned(), uuid: uuid.to_owned(), desired, state: State::Start }
    }

    /// The step that comes next.
    pub fn step(&self) -> (s: ReapStep)
        requires
            self.wf(),
        ensures
            s.deep_view() == next_step(self.dir(), self@),
    {
        match &self.state {
            State::Start => ReapStep::List(self.dir.clone()),
            State::Walk(frames) => {
                assert(frames.deep_view().len() == frames@.len());
                let top = &frames[frames.len() - 1];
                assert(frames.deep_view().last() == top.deep_view());
                if top.todo.len() > 0 {
                    let item = &top.todo[0];
                    assert(top.deep_view().todo[0] == item.deep_view());
                    let path = device::child(top.dev.as_str(), item.name.as_str());
                    if item.is_dir {
                        ReapStep::List(path)
                    } else {
                        ReapStep::RemoveFile(path)
                    }
                } else if frames.len() == 1 {
                    ReapStep::Finished
                } else {
                    ReapStep::RemoveDir(top.dev.clone())
                }
            },
            State::Failed(_) => ReapStep::Finished,
        }
    }

    /// Takes in a listing.
    pub fn listed(self, r: Result<Vec<DirEntry>, DeviceError>) -> (out: Self)
        requires
            self.wf(),
            next_step(self.dir(), self@) is List,
        ensures
            out.wf(),
            out.dir() == self.dir(),
            out.uuid() == self.uuid(),
            out.desired() == self.desired(),
            out@ == after_listing(
                self.dir(),
                self.uuid(),
                self.desired(),
                self@,
                device::device_outcome(r),
            ),
    {
        let Reap { dir, uuid, desired, state } = self;
        let state = match state {
            State::Walk(frames) => {
                let mut frames = frames;
                let ghost before = frames.deep_view();
                assert(before.len() == frames@.len());
                let mut top = take_top(&mut frames);
                let ghost t = top.deep_view();
                let item = top.todo.remove(0);
                assert(top.deep_view().todo =~= advanced(t).todo);
                assert(item.deep_view() == t.todo[0]);
                match r {
                    Ok(entries) => {
                        let dev = device::child(top.dev.as_str(), item.name.as_str());
                        let rel = child_name(top.rel.as_str(), item.name.as_str());
                        put_top(&mut frames, top);
                        let inner = open(dev, rel, uuid.as_str(), &desired, &entries);
                        put_top(&mut frames, inner);
                    },
                    Err(e) => {
                        device::note(&mut top.first_err, e);
                        top.kept = true;
                        put_top(&mut frames, top);
                    },
                }
                let ghost next = frames.deep_view();
                proof {
                    lemma_settled_len(next);
                }
                settle(&mut frames);
                State::Walk(frames)
            },
            _ => match r {
                Ok(entries) => {
                    let root = open(
                        dir.clone(),
                        String::new(),
                        uuid.as_str(),
                        &desired,
                        &entries,
                    );
                    let mut frames: Vec<Frame> = Vec::new();
                    put_top(&mut frames, root);
                    proof {
                        assert(""@ =~= Seq::<char>::empty()) by {
                            reveal_strlit("");
                        }
                        assert(frames.deep_view() =~= seq![root.deep_view()]);
                        lemma_settled_len(frames.deep_view());
                    }
                    settle(&mut frames);
                    State::Walk(frames)
                },
                Err(e) => State::Failed(e),
            },
        };
        Reap { dir, uuid, desired, state }
    }

    /// Takes in what came of a removal.
    pub fn removed(self, r: Result<(), DeviceError>) -> (out: Self)
        requires
            self.wf(),
            next_step(self.dir(), self@) is RemoveFile || next_step(self.dir(), self@) is RemoveDir,
        ensures
            out.wf(),
            out.dir() == self.dir(),
            out.uuid() == self.uuid(),
            out.desired() == self.desired(),
            out@ == after_removal(self@, device::unit_outcome(r)),
    {
        let Reap { dir, uuid, desired, state } = self;
        let state = match state {
            State::Walk(frames) => {
                let mut frames = frames;
                assert(frames.deep_view().len() == frames@.len());
                let mut top = take_top(&mut frames);
                let ghost t = top.deep_view();
                if top.todo.len() > 0 {
                    top.todo.remove(0);
                    assert(top.deep_view().todo =~= advanced(t).todo);
                } else {
                    assert(frames.deep_view().len() == frames@.len());
                    top = take_top(&mut frames);
                }
                if let Err(e) = r {
                    if !e.is_not_found() {
                        device::note(&mut top.first_err, e);
                        top.kept = true;
                    }
                }
                put_top(&mut frames, top);
                proof {
                    lemma_settled_len(frames.deep_view());
                }
                settle(&mut frames);
                State::Walk(frames)
            },
            other => other,
        };
        Reap { dir, uuid, desired, state }
    }

    /// What came of the work.
    pub fn finish(self) -> (r: Result<(), DeviceError>)
        requires
            self.wf(),
            next_step(self.dir(), self@) is Finished,
        ensures
            device::unit_outcome(r) == outcome_of(self@),
    {
        match self.state {
            State::Walk(frames) => {
                let mut frames = frames;
                assert(frames.deep_view().len() == frames@.len());
                let top = take_top(&mut frames);
                match top.first_err {
                    Some(e) => Err(e),
                    None => Ok(()),
                }
            },
            State::Failed(e) => Err(e),
            State::Start => Ok(()),
        }
    }
}

/// What the work comes to once it is finished.
pub open spec fn outcome_of(v: ReapView) -> Result<(), DeviceErrorView> {
    match v {
        ReapView::Walk(frames) => match frames.last().first_err {
            Some(e) => Err(e),
            None => Ok(()),
        },
        ReapView::Failed(e) => Err(e),
        ReapView::Start => Ok(()),
    }
}

fn take_top(frames: &mut Vec<Frame>) -> (top: Frame)
    requires
        old(frames)@.len() > 0,
    ensures
        top.deep_view() == old(frames).deep_view().last(),
        final(frames).deep_view() == old(frames).deep_view().drop_last(),
        final(frames)@.len() == old(frames)@.len() - 1,
{
    let ghost before = frames.deep_view();
    let n: usize = frames.len();
    let top = frames.remove(n - 1);
    assert(frames.deep_view() =~= before.drop_last());
    top
}

fn put_top(frames: &mut Vec<Frame>, top: Frame)
    ensures
        final(frames).deep_view() == old(frames).deep_view().push(top.deep_view()),
        final(frames)@.len() == old(frames)@.len() + 1,
{
    let ghost before = frames.deep_view();
    frames.push(top);
    assert(frames.deep_view() =~= before.push(top.deep_view()));
}

proof fn lemma_settled_len(frames: Seq<FrameView>)
    requires
        frames.len() > 0,
    ensures
        settled(frames).len() > 0,
    decreases frames.len(), frames.last().todo.len(),
{
    let top = frames.last();
    if top.todo.len() > 0 {
        if top.todo[0].is_dir && frames.len() > sftp::MAX_SUBTREE_DEPTH + 1 {
            lemma_settled_len(
                with_top(
                    frames,
                    failed(
                        advanced(top),
                        too_deep(device::child_path(top.dev, top.todo[0].name)),
                    ),
                ),
            );
        }
    } else if frames.len() > 1 {
        let outer = frames.drop_last();
        match top.first_err {
            Some(e) => {
                lemma_settled_len(with_top(outer, failed(outer.last(), e)));
            },
            None => {
                if top.kept {
                    lemma_settled_len(with_top(outer, FrameView { kept: true, ..outer.last() }));
                }
            },
        }
    }
}

fn settle(frames: &mut Vec<Frame>)
    requires
        old(frames)@.len() > 0,
    ensures
        final(frames).deep_view() == settled(old(frames).deep_view()),
    decreases old(frames)@.len(), old(frames).deep_view().last().todo.len(),
{
    let ghost before = frames.deep_view();
    let n: usize = frames.len();
    assert(before.len() == n);
    let mut top = take_top(frames);
    let ghost t = top.deep_view();
    assert(before =~= before.drop_last().push(t));
    if top.todo.len() > 0 {
        assert(t.todo[0] == top.todo@[0].deep_view());
        if top.todo[0].is_dir && n > sftp::MAX_SUBTREE_DEPTH + 1 {
            let item = top.todo.remove(0);
            assert(top.deep_view().todo =~= advanced(t).todo);
            let dev = device::child(top.dev.as_str(), item.name.as_str());
            let e = DeviceError::Other(
                text::concat2("reap_subtree depth exceeds 16 at ", dev.as_str()),
            );
            device::note(&mut top.first_err, e);
            top.kept = true;
            put_top(frames, top);
            settle(frames);
        } else {
            put_top(frames, top);
        }
    } else if n == 1 {
        put_top(frames, top);
    } else if top.first_err.is_some() || top.kept {
        let ghost inner = frames.deep_view();
        assert(inner.len() == n - 1);
        let mut outer = take_top(frames);
        if let Some(e) = top.first_err {
            device::note(&mut outer.first_err, e);
        }
        outer.kept = true;
        put_top(frames, outer);
        settle(frames);
    } else {
        put_top(frames, top);
    }
}

fn is_desired(desired: &Vec<String>, name: &str) -> (r: bool)
    ensures
        r == desired.deep_view().contains(name@),
{
    let ghost all = desired.deep_view();
    let mut i: usize = 0;
    while i < desired.len()
        invariant
            all == desired.deep_view(),
            i <= desired.len(),
            forall|k: int| 0 <= k < i ==> #[trigger] all[k] != name@,
        decreases desired.len() - i,
    {
        assert(all[i as int] == desired@[i as int]@);
        if text::str_eq(desired[i].as_str(), name) {
            assert(all.contains(name@));
            return true;
        }
        i = i + 1;
    }
    false
}

fn participates(name: &str, rel: &str, uuid: &str) -> (r: bool)
    ensures
        r == takes_part(name@, rel@, uuid@),
{
    device::is_safe_entry_name(name) && (!rel.is_empty() || device::name_belongs_to(name, uuid))
}

fn collect(
    rel: &str,
    uuid: &str,
    desired: &Vec<String>,
    entries: &Vec<DirEntry>,
    files: bool,
    dirs: bool,
) -> (todo: Vec<ReapItem>)
    ensures
        todo.deep_view() == leftovers(
            rel@,
            uuid@,
            desired.deep_view(),
            entries.deep_view(),
            files,
            dirs,
        ),
{
    let ghost all = entries.deep_view();
    let ghost want = desired.deep_view();
    let mut todo: Vec<ReapItem> = Vec::new();
    let mut i: usize = 0;
    proof {
        assert(all.take(0) =~= seq![]);
        assert(todo.deep_view() =~= seq![]);
    }
    while i < entries.len()
        invariant
            all == entries.deep_view(),
            want == desired.deep_view(),
            i <= entries.len(),
            todo.deep_view() == leftovers(rel@, uuid@, want, all.take(i as int), files, dirs),
        decreases entries.len() - i,
    {
        proof {
            assert(all.take(i + 1).drop_last() =~= all.take(i as int));
            assert(all.take(i + 1).last() == entries[i as int].deep_view());
        }
        let e = &entries[i];
        if participates(e.name.as_str(), rel, uuid) {
            let wanted = if e.is_dir {
                dirs
            } else {
                let name = child_name(rel, e.name.as_str());
                files && !is_desired(desired, name.as_str())
            };
            if wanted {
                let ghost before = todo.deep_view();
                let item = ReapItem { name: e.name.clone(), is_dir: e.is_dir };
                todo.push(item);
                assert(todo.deep_view() =~= before.push(item.deep_view()));
            }
        }
        i = i + 1;
    }
    assert(all.take(all.len() as int) =~= all);
    todo
}

fn holds_desired(rel: &str, uuid: &str, desired: &Vec<String>, entries: &Vec<DirEntry>) -> (r: bool)
    ensures
        r == has_desired(rel@, uuid@, desired.deep_view(), entries.deep_view()),
{
    let ghost all = entries.deep_view();
    let ghost want = desired.deep_view();
    let mut i: usize = 0;
    while i < entries.len()
        invariant
            all == entries.deep_view(),
            want == desired.deep_view(),
            i <= entries.len(),
            forall|k: int|
                0 <= k < i ==> (#[trigger] all[k]).is_dir || !takes_part(all[k].name, rel@, uuid@)
                    || !want.contains(child_rel(rel@, all[k].name)),
        decreases entries.len() - i,
    {
        let e = &entries[i];
        assert(all[i as int] == e.deep_view());
        if !e.is_dir && participates(e.name.as_str(), rel, uuid) {
            let name = child_name(rel, e.name.as_str());
            if is_desired(desired, name.as_str()) {
                return true;
            }
        }
        i = i + 1;
    }
    false
}

fn open(
    dev: String,
    rel: String,
    uuid: &str,
    desired: &Vec<String>,
    entries: &Vec<DirEntry>,
) -> (f: Frame)
    ensures
        f.deep_view() == opened(
            dev@,
            rel@,
            uuid@,
            desired.deep_view(),
            entries.deep_view(),
        ),
{
    let todo = if rel.as_str().is_empty() {
        let mut files = collect(rel.as_str(), uuid, desired, entries, true, false);
        let mut dirs = collect(rel.as_str(), uuid, desired, entries, false, true);
        let ghost a = files.deep_view();
        let ghost b = dirs.deep_view();
        files.append(&mut dirs);
        assert(files.deep_view() =~= a + b);
        files
    } else {
        collect(rel.as_str(), uuid, desired, entries, true, true)
    };
    let kept = holds_desired(rel.as_str(), uuid, desired, entries);
    Frame { dev, rel, todo, kept, first_err: None }
}

/// The name of something that lies below the document directory under the given names, one inside
/// the other.
pub open spec fn rel_of(names: Seq<Seq<char>>) -> Seq<char>
    decreases names.len(),
{
    if names.len() == 0 {
        seq![]
    } else {
        child_rel(rel_of(names.drop_last()), names.last())
    }
}

/// Whether names lead to a part of the document or further in: the first belongs to the document,
/// and none of them leads elsewhere.
pub open spec fn leads_in(uuid: Seq<char>, names: Seq<Seq<char>>) -> bool {
    &&& names.len() > 0
    &&& device::belongs_to(names[0], uuid)
    &&& forall|i: int| 0 <= i < names.len() ==> device::is_safe_name(#[trigger] names[i])
}

/// Whether a name is that of a part of the document, or of something in it.
pub open spec fn is_part(uuid: Seq<char>, rel: Seq<char>) -> bool {
    exists|names: Seq<Seq<char>>| leads_in(uuid, names) && rel == #[trigger] rel_of(names)
}

/// What takes part in a directory of the document is a part of it.
proof fn lemma_part(uuid: Seq<char>, rel: Seq<char>, name: Seq<char>)
    requires
        rel.len() == 0 || is_part(uuid, rel),
        takes_part(name, rel, uuid),
    ensures
        is_part(uuid, child_rel(rel, name)),
        child_rel(rel, name).len() > 0,
{
    let names = if rel.len() == 0 {
        seq![]
    } else {
        choose|names: Seq<Seq<char>>| leads_in(uuid, names) && rel == #[trigger] rel_of(names)
    };
    let all = names.push(name);
    assert(all.drop_last() =~= names);
    assert(rel_of(names) =~= rel);
    assert(leads_in(uuid, all)) by {
        assert forall|i: int| 0 <= i < all.len() implies device::is_safe_name(#[trigger] all[i]) by {
            if i < names.len() {
                assert(all[i] == names[i]);
            }
        }
        if names.len() > 0 {
            assert(all[0] == names[0]);
        }
    }
    assert(rel_of(all) == child_rel(rel, name));
}

/// Whether a directory is where its name says, a part of the document unless it is the document
/// directory, and nothing in it that the document has is to be removed.
pub open spec fn is_sound(
    dir: Seq<char>,
    uuid: Seq<char>,
    desired: Seq<Seq<char>>,
    f: FrameView,
    outermost: bool,
) -> bool {
    &&& if outermost {
        f.dev == dir && f.rel.len() == 0
    } else {
        f.rel.len() > 0 && is_part(uuid, f.rel) && f.dev == device::child_path(dir, f.rel)
    }
    &&& forall|i: int|
        0 <= i < f.todo.len() ==> takes_part((#[trigger] f.todo[i]).name, f.rel, uuid) && (
        !f.todo[i].is_dir ==> !desired.contains(child_rel(f.rel, f.todo[i].name)))
}

/// Whether all directories are sound.
pub open spec fn all_sound(
    dir: Seq<char>,
    uuid: Seq<char>,
    desired: Seq<Seq<char>>,
    frames: Seq<FrameView>,
) -> bool {
    forall|k: int|
        0 <= k < frames.len() ==> is_sound(dir, uuid, desired, #[trigger] frames[k], k == 0)
}

/// Whether the work is sound.
pub open spec fn sound(
    dir: Seq<char>,
    uuid: Seq<char>,
    desired: Seq<Seq<char>>,
    v: ReapView,
) -> bool {
    v matches ReapView::Walk(frames) ==> frames.len() > 0 && all_sound(dir, uuid, desired, frames)
}

proof fn lemma_leftovers_sound(
    rel: Seq<char>,
    uuid: Seq<char>,
    desired: Seq<Seq<char>>,
    entries: Seq<DirEntryView>,
    files: bool,
    dirs: bool,
)
    ensures
        ({
            let todo = leftovers(rel, uuid, desired, entries, files, dirs);
            forall|i: int|
                0 <= i < todo.len() ==> takes_part((#[trigger] todo[i]).name, rel, uuid) && (
                !todo[i].is_dir ==> !desired.contains(child_rel(rel, todo[i].name)))
        }),
    decreases entries.len(),
{
    if entries.len() > 0 {
        lemma_leftovers_sound(rel, uuid, desired, entries.drop_last(), files, dirs);
        let rest = leftovers(rel, uuid, desired, entries.drop_last(), files, dirs);
        let todo = leftovers(rel, uuid, desired, entries, files, dirs);
        assert forall|i: int| 0 <= i < todo.len() implies takes_part(
            (#[trigger] todo[i]).name,
            rel,
            uuid,
        ) && (!todo[i].is_dir ==> !desired.contains(child_rel(rel, todo[i].name))) by {
            if i < rest.len() {
                assert(todo[i] == rest[i]);
            }
        }
    }
}

proof fn lemma_opened_sound(
    dir: Seq<char>,
    dev: Seq<char>,
    rel: Seq<char>,
    uuid: Seq<char>,
    desired: Seq<Seq<char>>,
    entries: Seq<DirEntryView>,
    outermost: bool,
)
    requires
        if outermost {
            dev == dir && rel.len() == 0
        } else {
            rel.len() > 0 && is_part(uuid, rel) && dev == device::child_path(dir, rel)
        },
    ensures
        is_sound(dir, uuid, desired, opened(dev, rel, uuid, desired, entries), outermost),
{
    lemma_leftovers_sound(rel, uuid, desired, entries, true, false);
    lemma_leftovers_sound(rel, uuid, desired, entries, false, true);
    lemma_leftovers_sound(rel, uuid, desired, entries, true, true);
    let todo = todo_of(rel, uuid, desired, entries);
    let files = leftovers(rel, uuid, desired, entries, true, false);
    let dirs = leftovers(rel, uuid, desired, entries, false, true);
    assert forall|i: int| 0 <= i < todo.len() implies takes_part(
        (#[trigger] todo[i]).name,
        rel,
        uuid,
    ) && (!todo[i].is_dir ==> !desired.contains(child_rel(rel, todo[i].name))) by {
        if rel.len() == 0 {
            if i < files.len() {
                assert(todo[i] == files[i]);
            } else {
                assert(todo[i] == dirs[i - files.len()]);
            }
        }
    }
}

proof fn lemma_advanced_sound(
    dir: Seq<char>,
    uuid: Seq<char>,
    desired: Seq<Seq<char>>,
    f: FrameView,
    outermost: bool,
)
    requires
        is_sound(dir, uuid, desired, f, outermost),
        f.todo.len() > 0,
    ensures
        is_sound(dir, uuid, desired, advanced(f), outermost),
{
    assert forall|i: int| 0 <= i < advanced(f).todo.len() implies takes_part(
        (#[trigger] advanced(f).todo[i]).name,
        f.rel,
        uuid,
    ) && (!advanced(f).todo[i].is_dir ==> !desired.contains(
        child_rel(f.rel, advanced(f).todo[i].name),
    )) by {
        assert(advanced(f).todo[i] == f.todo[i + 1]);
    }
}

proof fn lemma_with_top_sound(
    dir: Seq<char>,
    uuid: Seq<char>,
    desired: Seq<Seq<char>>,
    frames: Seq<FrameView>,
    f: FrameView,
)
    requires
        frames.len() > 0,
        all_sound(dir, uuid, desired, frames),
        is_sound(dir, uuid, desired, f, frames.len() == 1),
    ensures
        all_sound(dir, uuid, desired, with_top(frames, f)),
{
    assert forall|k: int| 0 <= k < with_top(frames, f).len() implies is_sound(
        dir,
        uuid,
        desired,
        #[trigger] with_top(frames, f)[k],
        k == 0,
    ) by {
        if k < frames.len() - 1 {
            assert(with_top(frames, f)[k] == frames[k]);
        }
    }
}

proof fn lemma_settled_sound(
    dir: Seq<char>,
    uuid: Seq<char>,
    desired: Seq<Seq<char>>,
    frames: Seq<FrameView>,
)
    requires
        frames.len() > 0,
        all_sound(dir, uuid, desired, frames),
    ensures
        all_sound(dir, uuid, desired, settled(frames)),
    decreases frames.len(), frames.last().todo.len(),
{
    let top = frames.last();
    assert(is_sound(dir, uuid, desired, frames[frames.len() - 1], frames.len() - 1 == 0));
    if top.todo.len() > 0 {
        if top.todo[0].is_dir && frames.len() > sftp::MAX_SUBTREE_DEPTH + 1 {
            let next = failed(
                advanced(top),
                too_deep(device::child_path(top.dev, top.todo[0].name)),
            );
            lemma_advanced_sound(dir, uuid, desired, top, frames.len() == 1);
            lemma_with_top_sound(dir, uuid, desired, frames, next);
            lemma_settled_sound(dir, uuid, desired, with_top(frames, next));
        }
    } else if frames.len() > 1 {
        let outer = frames.drop_last();
        assert(all_sound(dir, uuid, desired, outer)) by {
            assert forall|k: int| 0 <= k < outer.len() implies is_sound(
                dir,
                uuid,
                desired,
                #[trigger] outer[k],
                k == 0,
            ) by {
                assert(outer[k] == frames[k]);
            }
        }
        assert(is_sound(dir, uuid, desired, outer[outer.len() - 1], outer.len() - 1 == 0));
        match top.first_err {
            Some(e) => {
                let next = failed(outer.last(), e);
                lemma_with_top_sound(dir, uuid, desired, outer, next);
                lemma_settled_sound(dir, uuid, desired, with_top(outer, next));
            },
            None => {
                if top.kept {
                    let next = FrameView { kept: true, ..outer.last() };
                    lemma_with_top_sound(dir, uuid, desired, outer, next);
                    lemma_settled_sound(dir, uuid, desired, with_top(outer, next));
                }
            },
        }
    }
}

proof fn lemma_child_place(dir: Seq<char>, rel: Seq<char>, name: Seq<char>)
    requires
        rel.len() > 0,
    ensures
        device::child_path(device::child_path(dir, rel), name) == device::child_path(
            dir,
            child_rel(rel, name),
        ),
{
    assert(device::child_path(device::child_path(dir, rel), name) =~= device::child_path(
        dir,
        child_rel(rel, name),
    ));
}

/// A listing keeps the work sound.
pub proof fn listing_stays_sound(
    dir: Seq<char>,
    uuid: Seq<char>,
    desired: Seq<Seq<char>>,
    v: ReapView,
    r: Result<Seq<DirEntryView>, DeviceErrorView>,
)
    requires
        sound(dir, uuid, desired, v),
        next_step(dir, v) is List,
    ensures
        sound(dir, uuid, desired, after_listing(dir, uuid, desired, v, r)),
{
    match v {
        ReapView::Start => {
            if let Ok(entries) = r {
                let root = opened(dir, Seq::empty(), uuid, desired, entries);
                lemma_opened_sound(dir, dir, Seq::empty(), uuid, desired, entries, true);
                lemma_settled_len(seq![root]);
                lemma_settled_sound(dir, uuid, desired, seq![root]);
            }
        },
        ReapView::Walk(frames) => {
            let top = frames.last();
            let name = top.todo[0].name;
            assert(is_sound(dir, uuid, desired, frames[frames.len() - 1], frames.len() - 1 == 0));
            lemma_advanced_sound(dir, uuid, desired, top, frames.len() == 1);
            match r {
                Ok(entries) => {
                    lemma_with_top_sound(dir, uuid, desired, frames, advanced(top));
                    let rel = child_rel(top.rel, name);
                    let dev = device::child_path(top.dev, name);
                    assert(takes_part(top.todo[0].name, top.rel, uuid));
                    lemma_part(uuid, top.rel, name);
                    if frames.len() > 1 {
                        lemma_child_place(dir, top.rel, name);
                    }
                    lemma_opened_sound(dir, dev, rel, uuid, desired, entries, false);
                    let inner = opened(dev, rel, uuid, desired, entries);
                    let next = with_top(frames, advanced(top)).push(inner);
                    assert(all_sound(dir, uuid, desired, next)) by {
                        assert forall|k: int| 0 <= k < next.len() implies is_sound(
                            dir,
                            uuid,
                            desired,
                            #[trigger] next[k],
                            k == 0,
                        ) by {
                            if k < frames.len() {
                                assert(next[k] == with_top(frames, advanced(top))[k]);
                            }
                        }
                    }
                    lemma_settled_len(next);
                    lemma_settled_sound(dir, uuid, desired, next);
                },
                Err(e) => {
                    let next = failed(advanced(top), e);
                    lemma_with_top_sound(dir, uuid, desired, frames, next);
                    lemma_settled_len(with_top(frames, next));
                    lemma_settled_sound(dir, uuid, desired, with_top(frames, next));
                },
            }
        },
        ReapView::Failed(_) => {},
    }
}

/// A removal keeps the work sound.
pub proof fn removal_stays_sound(
    dir: Seq<char>,
    uuid: Seq<char>,
    desired: Seq<Seq<char>>,
    v: ReapView,
    r: Result<(), DeviceErrorView>,
)
    requires
        sound(dir, uuid, desired, v),
        next_step(dir, v) is RemoveFile || next_step(dir, v) is RemoveDir,
    ensures
        sound(dir, uuid, desired, after_removal(v, r)),
{
    if let ReapView::Walk(frames) = v {
        let top = frames.last();
        assert(is_sound(dir, uuid, desired, frames[frames.len() - 1], frames.len() - 1 == 0));
        if top.todo.len() > 0 {
            lemma_advanced_sound(dir, uuid, desired, top, frames.len() == 1);
            let next = removal_noted(advanced(top), r);
            lemma_with_top_sound(dir, uuid, desired, frames, next);
            lemma_settled_len(with_top(frames, next));
            lemma_settled_sound(dir, uuid, desired, with_top(frames, next));
        } else {
            let outer = frames.drop_last();
            assert(all_sound(dir, uuid, desired, outer)) by {
                assert forall|k: int| 0 <= k < outer.len() implies is_sound(
                    dir,
                    uuid,
                    desired,
                    #[trigger] outer[k],
                    k == 0,
                ) by {
                    assert(outer[k] == frames[k]);
                }
            }
            assert(is_sound(dir, uuid, desired, outer[outer.len() - 1], outer.len() - 1 == 0));
            let next = removal_noted(outer.last(), r);
            lemma_with_top_sound(dir, uuid, desired, outer, next);
            lemma_settled_len(with_top(outer, next));
            lemma_settled_sound(dir, uuid, desired, with_top(outer, next));
        }
    }
}

/// Whatever names the tablet sends, no step leaves the document: the document directory is only
/// listed, and all else that is listed or removed is a part of the document or lies in one.
pub proof fn steps_stay_inside(
    dir: Seq<char>,
    uuid: Seq<char>,
    desired: Seq<Seq<char>>,
    v: ReapView,
)
    requires
        sound(dir, uuid, desired, v),
    ensures
        match next_step(dir, v) {
            ReapStepView::List(p) => p == dir || exists|rel: Seq<char>|
                is_part(uuid, rel) && p == #[trigger] device::child_path(dir, rel),
            ReapStepView::RemoveFile(p) => exists|rel: Seq<char>|
                is_part(uuid, rel) && p == #[trigger] device::child_path(dir, rel),
            ReapStepView::RemoveDir(p) => exists|rel: Seq<char>|
                is_part(uuid, rel) && p == #[trigger] device::child_path(dir, rel),
            ReapStepView::Finished => true,
        },
{
    if let ReapView::Walk(frames) = v {
        let top = frames.last();
        assert(is_sound(dir, uuid, desired, frames[frames.len() - 1], frames.len() - 1 == 0));
        if top.todo.len() > 0 {
            let name = top.todo[0].name;
            assert(takes_part(top.todo[0].name, top.rel, uuid));
            lemma_part(uuid, top.rel, name);
            let rel = child_rel(top.rel, name);
            if frames.len() > 1 {
                lemma_child_place(dir, top.rel, name);
            }
            assert(device::child_path(top.dev, name) == device::child_path(dir, rel));
        } else if frames.len() > 1 {
            assert(top.dev == device::child_path(dir, top.rel));
        }
    }
}

/// No file that the document has is ever removed.
pub proof fn desired_files_are_spared(
    dir: Seq<char>,
    uuid: Seq<char>,
    desired: Seq<Seq<char>>,
    v: ReapView,
    file: Seq<char>,
)
    requires
        sound(dir, uuid, desired, v),
        desired.contains(file),
    ensures
        next_step(dir, v) != ReapStepView::RemoveFile(device::child_path(dir, file)),
{
    if let ReapView::Walk(frames) = v {
        let top = frames.last();
        assert(is_sound(dir, uuid, desired, frames[frames.len() - 1], frames.len() - 1 == 0));
        if top.todo.len() > 0 && !top.todo[0].is_dir {
            let name = top.todo[0].name;
            assert(!desired.contains(child_rel(top.rel, name)));
            if frames.len() > 1 {
                lemma_child_place(dir, top.rel, name);
            }
            let place = child_rel(top.rel, name);
            assert(device::child_path(top.dev, name) == device::child_path(dir, place));
            if device::child_path(dir, place) == device::child_path(dir, file) {
                device::lemma_child_path_injective(dir, place, file);
            }
        }
    }
}

/// A directory is removed only if nothing in it stays and nothing in it went wrong.
pub proof fn only_empty_directories_go(frames: Seq<FrameView>, dir: Seq<char>)
    requires
        frames.len() > 0,
        next_step(dir, ReapView::Walk(settled(frames))) is RemoveDir,
    ensures
        !settled(frames).last().kept,
        settled(frames).last().first_err is None,
    decreases frames.len(), frames.last().todo.len(),
{
    let top = frames.last();
    if top.todo.len() > 0 {
        if top.todo[0].is_dir && frames.len() > sftp::MAX_SUBTREE_DEPTH + 1 {
            only_empty_directories_go(
                with_top(
                    frames,
                    failed(
                        advanced(top),
                        too_deep(device::child_path(top.dev, top.todo[0].name)),
                    ),
                ),
                dir,
            );
        }
    } else if frames.len() > 1 {
        let outer = frames.drop_last();
        match top.first_err {
            Some(e) => {
                only_empty_directories_go(with_top(outer, failed(outer.last(), e)), dir);
            },
            None => {
                if top.kept {
                    only_empty_directories_go(
                        with_top(outer, FrameView { kept: true, ..outer.last() }),
                        dir,
                    );
                }
            },
        }
    }
}

proof fn lemma_leftovers_complete(
    rel: Seq<char>,
    uuid: Seq<char>,
    desired: Seq<Seq<char>>,
    entries: Seq<DirEntryView>,
    files: bool,
    dirs: bool,
    j: int,
)
    requires
        0 <= j < entries.len(),
        takes_part(entries[j].name, rel, uuid),
        if entries[j].is_dir {
            dirs
        } else {
            files && !desired.contains(child_rel(rel, entries[j].name))
        },
    ensures
        leftovers(rel, uuid, desired, entries, files, dirs).contains(
            ReapItemView { name: entries[j].name, is_dir: entries[j].is_dir },
        ),
    decreases entries.len(),
{
    let all = leftovers(rel, uuid, desired, entries, files, dirs);
    let rest = leftovers(rel, uuid, desired, entries.drop_last(), files, dirs);
    let item = ReapItemView { name: entries[j].name, is_dir: entries[j].is_dir };
    if j == entries.len() - 1 {
        assert(all.last() == item);
    } else {
        lemma_leftovers_complete(rel, uuid, desired, entries.drop_last(), files, dirs, j);
        let i = choose|i: int| 0 <= i < rest.len() && rest[i] == item;
        assert(all[i] == item);
    }
}

/// Of a directory that was listed, every file that the document no longer has is seen to, and so
/// is every directory. In the document directory only what bears the document's name counts, or
/// its name with a dot and an ending.
pub proof fn leftovers_are_seen_to(
    rel: Seq<char>,
    uuid: Seq<char>,
    desired: Seq<Seq<char>>,
    entries: Seq<DirEntryView>,
    j: int,
)
    requires
        0 <= j < entries.len(),
        device::is_safe_name(entries[j].name),
        rel.len() == 0 ==> entries[j].name == uuid || text::has_prefix(
            entries[j].name,
            uuid + "."@,
        ),
        entries[j].is_dir || !desired.contains(
            if rel.len() == 0 {
                entries[j].name
            } else {
                rel + "/"@ + entries[j].name
            },
        ),
    ensures
        todo_of(rel, uuid, desired, entries).contains(
            ReapItemView { name: entries[j].name, is_dir: entries[j].is_dir },
        ),
{
    let item = ReapItemView { name: entries[j].name, is_dir: entries[j].is_dir };
    let todo = todo_of(rel, uuid, desired, entries);
    if rel.len() == 0 {
        let files = leftovers(rel, uuid, desired, entries, true, false);
        let dirs = leftovers(rel, uuid, desired, entries, false, true);
        if entries[j].is_dir {
            lemma_leftovers_complete(rel, uuid, desired, entries, false, true, j);
            let i = choose|i: int| 0 <= i < dirs.len() && dirs[i] == item;
            assert(todo[files.len() + i] == item);
        } else {
            lemma_leftovers_complete(rel, uuid, desired, entries, true, false, j);
            let i = choose|i: int| 0 <= i < files.len() && files[i] == item;
            assert(todo[i] == item);
        }
    } else {
        lemma_leftovers_complete(rel, uuid, desired, entries, true, true, j);
    }
}

/// What came of a step: a listing, or a removal.
pub enum ReapReply {
    Listing(Result<Seq<DirEntryView>, DeviceErrorView>),
    Removal(Result<(), DeviceErrorView>),
}

/// Whether the work goes through the given states, from the first one on, when its steps come
/// out as given.
pub open spec fn is_run(
    dir: Seq<char>,
    uuid: Seq<char>,
    desired: Seq<Seq<char>>,
    states: Seq<ReapView>,
    replies: Seq<ReapReply>,
) -> bool {
    &&& states.len() == replies.len() + 1
    &&& states[0] is Start
    &&& forall|k: int|
        0 <= k < replies.len() ==> match #[trigger] replies[k] {
            ReapReply::Listing(r) => next_step(dir, states[k]) is List && states[k + 1]
                == after_listing(dir, uuid, desired, states[k], r),
            ReapReply::Removal(r) => (next_step(dir, states[k]) is RemoveFile || next_step(
                dir,
                states[k],
            ) is RemoveDir) && states[k + 1] == after_removal(states[k], r),
        }
}

proof fn lemma_run_sound(
    dir: Seq<char>,
    uuid: Seq<char>,
    desired: Seq<Seq<char>>,
    states: Seq<ReapView>,
    replies: Seq<ReapReply>,
    k: int,
)
    requires
        is_run(dir, uuid, desired, states, replies),
        0 <= k < states.len(),
    ensures
        sound(dir, uuid, desired, states[k]),
        k > 0 ==> !(states[k] is Start),
    decreases k,
{
    if k > 0 {
        lemma_run_sound(dir, uuid, desired, states, replies, k - 1);
        match replies[k - 1] {
            ReapReply::Listing(r) => {
                listing_stays_sound(dir, uuid, desired, states[k - 1], r);
            },
            ReapReply::Removal(r) => {
                removal_stays_sound(dir, uuid, desired, states[k - 1], r);
            },
        }
    }
}

/// Whether something in a directory is still to be seen to.
spec fn has_item(f: FrameView, path: Seq<char>, is_dir: bool) -> bool {
    exists|j: int|
        0 <= j < f.todo.len() && (#[trigger] f.todo[j]).is_dir == is_dir && device::child_path(
            f.dev,
            f.todo[j].name,
        ) == path
}

/// Whether something in one of the directories is still to be seen to.
spec fn is_pending(frames: Seq<FrameView>, path: Seq<char>, is_dir: bool) -> bool {
    exists|i: int| 0 <= i < frames.len() && has_item(#[trigger] frames[i], path, is_dir)
}

/// Whether something in one of the directories went wrong.
spec fn is_errored(frames: Seq<FrameView>) -> bool {
    exists|i: int| 0 <= i < frames.len() && (#[trigger] frames[i]).first_err is Some
}

/// Whether what is noted in the directories is worth noting.
spec fn is_clean(frames: Seq<FrameView>) -> bool {
    forall|i: int|
        0 <= i < frames.len() ==> ((#[trigger] frames[i]).first_err matches Some(e) ==> !(e
            is NotFound))
}

proof fn lemma_with_top_clean(frames: Seq<FrameView>, f: FrameView)
    requires
        frames.len() > 0,
        is_clean(frames),
        f.first_err matches Some(e) ==> !(e is NotFound),
    ensures
        is_clean(with_top(frames, f)),
{
    let next = with_top(frames, f);
    assert forall|i: int| 0 <= i < next.len() implies ((#[trigger] next[i]).first_err matches Some(
        e,
    ) ==> !(e is NotFound)) by {
        if i < frames.len() - 1 {
            assert(next[i] == frames[i]);
        }
    }
}

proof fn lemma_with_top_pending(
    frames: Seq<FrameView>,
    f: FrameView,
    path: Seq<char>,
    is_dir: bool,
)
    requires
        frames.len() > 0,
        is_pending(frames, path, is_dir),
        has_item(frames.last(), path, is_dir) ==> has_item(f, path, is_dir),
    ensures
        is_pending(with_top(frames, f), path, is_dir),
{
    let i = choose|i: int| 0 <= i < frames.len() && has_item(#[trigger] frames[i], path, is_dir);
    let next = with_top(frames, f);
    if i < frames.len() - 1 {
        assert(next[i] == frames[i]);
    } else {
        assert(next[i] == f);
    }
}

proof fn lemma_with_top_errored(frames: Seq<FrameView>, f: FrameView)
    requires
        frames.len() > 0,
        is_errored(frames),
        frames.last().first_err is Some ==> f.first_err is Some,
    ensures
        is_errored(with_top(frames, f)),
{
    let i = choose|i: int| 0 <= i < frames.len() && (#[trigger] frames[i]).first_err is Some;
    let next = with_top(frames, f);
    if i < frames.len() - 1 {
        assert(next[i] == frames[i]);
    } else {
        assert(next[i] == f);
    }
}

proof fn lemma_top_errored(frames: Seq<FrameView>, f: FrameView)
    requires
        f.first_err is Some,
    ensures
        is_errored(frames.push(f)),
{
    assert(frames.push(f)[frames.len() as int] == f);
}

/// Passing by the first thing to see to leaves the others.
proof fn lemma_advanced_pending(f: FrameView, path: Seq<char>, is_dir: bool)
    requires
        f.todo.len() > 0,
        has_item(f, path, is_dir),
        f.todo[0].is_dir != is_dir || device::child_path(f.dev, f.todo[0].name) != path,
    ensures
        has_item(advanced(f), path, is_dir),
{
    let j = choose|j: int|
        0 <= j < f.todo.len() && (#[trigger] f.todo[j]).is_dir == is_dir && device::child_path(
            f.dev,
            f.todo[j].name,
        ) == path;
    assert(advanced(f).todo[j - 1] == f.todo[j]);
}

proof fn lemma_same_todo(f: FrameView, g: FrameView, path: Seq<char>, is_dir: bool)
    requires
        f.dev == g.dev,
        f.todo == g.todo,
    ensures
        has_item(f, path, is_dir) == has_item(g, path, is_dir),
{
    if has_item(f, path, is_dir) {
        let j = choose|j: int|
            0 <= j < f.todo.len() && (#[trigger] f.todo[j]).is_dir == is_dir && device::child_path(
                f.dev,
                f.todo[j].name,
            ) == path;
        assert(g.todo[j].is_dir == is_dir);
    }
    if has_item(g, path, is_dir) {
        let j = choose|j: int|
            0 <= j < g.todo.len() && (#[trigger] g.todo[j]).is_dir == is_dir && device::child_path(
                g.dev,
                g.todo[j].name,
            ) == path;
        assert(f.todo[j].is_dir == is_dir);
    }
}

/// Leaving directories forgets no error, and forgets nothing that is to be seen to, but for a
/// directory that lies too deep, which is an error.
proof fn lemma_settled_keeps(frames: Seq<FrameView>, path: Seq<char>, is_dir: bool)
    requires
        frames.len() > 0,
        is_clean(frames),
    ensures
        is_clean(settled(frames)),
        is_errored(frames) ==> is_errored(settled(frames)),
        is_pending(frames, path, is_dir) ==> is_pending(settled(frames), path, is_dir) || (is_dir
            && is_errored(settled(frames))),
    decreases frames.len(), frames.last().todo.len(),
{
    let top = frames.last();
    if top.todo.len() > 0 {
        if top.todo[0].is_dir && frames.len() > sftp::MAX_SUBTREE_DEPTH + 1 {
            let f = failed(
                advanced(top),
                too_deep(device::child_path(top.dev, top.todo[0].name)),
            );
            assert(frames[frames.len() - 1] == top);
            lemma_with_top_clean(frames, f);
            lemma_settled_keeps(with_top(frames, f), path, is_dir);
            assert(f.first_err is Some);
            lemma_top_errored(frames.drop_last(), f);
            if is_pending(frames, path, is_dir) && !is_dir {
                if has_item(top, path, is_dir) {
                    lemma_advanced_pending(top, path, is_dir);
                    lemma_same_todo(advanced(top), f, path, is_dir);
                }
                lemma_with_top_pending(frames, f, path, is_dir);
            }
        }
    } else if frames.len() > 1 {
        let outer = frames.drop_last();
        assert(is_clean(outer)) by {
            assert forall|i: int| 0 <= i < outer.len() implies ((
            #[trigger] outer[i]).first_err matches Some(e) ==> !(e is NotFound)) by {
                assert(outer[i] == frames[i]);
            }
        }
        assert(outer.last() == outer[outer.len() - 1]);
        if is_pending(frames, path, is_dir) {
            let i = choose|i: int|
                0 <= i < frames.len() && has_item(#[trigger] frames[i], path, is_dir);
            assert(i < outer.len());
            assert(has_item(outer[i], path, is_dir));
        }
        match top.first_err {
            Some(e) => {
                let f = failed(outer.last(), e);
                assert(frames[frames.len() - 1] == top);
                assert(f.first_err is Some);
                lemma_with_top_clean(outer, f);
                lemma_settled_keeps(with_top(outer, f), path, is_dir);
                lemma_same_todo(outer.last(), f, path, is_dir);
                if is_pending(outer, path, is_dir) {
                    lemma_with_top_pending(outer, f, path, is_dir);
                }
                lemma_top_errored(outer.drop_last(), f);
            },
            None => {
                if top.kept {
                    let f = FrameView { kept: true, ..outer.last() };
                    lemma_with_top_clean(outer, f);
                    lemma_settled_keeps(with_top(outer, f), path, is_dir);
                    lemma_same_todo(outer.last(), f, path, is_dir);
                    if is_pending(outer, path, is_dir) {
                        lemma_with_top_pending(outer, f, path, is_dir);
                    }
                    if is_errored(frames) {
                        let i = choose|i: int|
                            0 <= i < frames.len() && (#[trigger] frames[i]).first_err is Some;
                        assert(outer[i].first_err is Some);
                        lemma_with_top_errored(outer, f);
                    }
                }
            },
        }
    }
}

/// Whether a directory that is about to be removed holds nothing that stays, and nothing in it
/// went wrong.
spec fn is_left_in_order(dir: Seq<char>, frames: Seq<FrameView>) -> bool {
    next_step(dir, ReapView::Walk(frames)) is RemoveDir ==> frames.last().first_err is None
        && !frames.last().kept
}

proof fn lemma_left_in_order(dir: Seq<char>, frames: Seq<FrameView>)
    requires
        frames.len() > 0,
    ensures
        is_left_in_order(dir, settled(frames)),
{
    if next_step(dir, ReapView::Walk(settled(frames))) is RemoveDir {
        only_empty_directories_go(frames, dir);
    }
}

/// One step keeps what is still to be seen to, unless it is the step that sees to it, and forgets
/// no error.
proof fn lemma_step_keeps(
    dir: Seq<char>,
    uuid: Seq<char>,
    desired: Seq<Seq<char>>,
    frames: Seq<FrameView>,
    reply: ReapReply,
    after: Seq<FrameView>,
    path: Seq<char>,
    is_dir: bool,
)
    requires
        frames.len() > 0,
        is_clean(frames),
        is_left_in_order(dir, frames),
        match reply {
            ReapReply::Listing(r) => next_step(dir, ReapView::Walk(frames)) is List
                && ReapView::Walk(after) == after_listing(
                dir,
                uuid,
                desired,
                ReapView::Walk(frames),
                r,
            ),
            ReapReply::Removal(r) => (next_step(dir, ReapView::Walk(frames)) is RemoveFile
                || next_step(dir, ReapView::Walk(frames)) is RemoveDir) && ReapView::Walk(after)
                == after_removal(ReapView::Walk(frames), r),
        },
    ensures
        after.len() > 0,
        is_clean(after),
        is_left_in_order(dir, after),
        is_errored(frames) ==> is_errored(after),
        match reply {
            ReapReply::Listing(Err(e)) => !(e is NotFound) ==> is_errored(after),
            ReapReply::Removal(Err(e)) => !(e is NotFound) ==> is_errored(after),
            _ => true,
        },
        is_pending(frames, path, is_dir) ==> is_pending(after, path, is_dir) || (is_dir
            && is_errored(after)) || next_step(dir, ReapView::Walk(frames)) == (if is_dir {
            ReapStepView::List(path)
        } else {
            ReapStepView::RemoveFile(path)
        }),
{
    let top = frames.last();
    assert(frames[frames.len() - 1] == top);
    let done = next_step(dir, ReapView::Walk(frames)) == (if is_dir {
        ReapStepView::List(path)
    } else {
        ReapStepView::RemoveFile(path)
    });
    if top.todo.len() > 0 {
        if !done && has_item(top, path, is_dir) {
            lemma_advanced_pending(top, path, is_dir);
        }
        let f = match reply {
            ReapReply::Listing(Ok(_)) => advanced(top),
            ReapReply::Listing(Err(e)) => failed(advanced(top), e),
            ReapReply::Removal(r) => removal_noted(advanced(top), r),
        };
        lemma_same_todo(advanced(top), f, path, is_dir);
        lemma_with_top_clean(frames, f);
        let next = with_top(frames, f);
        if !done && is_pending(frames, path, is_dir) {
            lemma_with_top_pending(frames, f, path, is_dir);
        }
        if is_errored(frames) {
            lemma_with_top_errored(frames, f);
        }
        if f.first_err is Some {
            lemma_top_errored(frames.drop_last(), f);
        }
        match reply {
            ReapReply::Listing(Ok(entries)) => {
                let name = top.todo[0].name;
                let inner = opened(
                    device::child_path(top.dev, name),
                    child_rel(top.rel, name),
                    uuid,
                    desired,
                    entries,
                );
                let all = next.push(inner);
                assert(is_clean(all)) by {
                    assert forall|i: int| 0 <= i < all.len() implies ((
                    #[trigger] all[i]).first_err matches Some(e) ==> !(e is NotFound)) by {
                        if i < next.len() {
                            assert(all[i] == next[i]);
                        }
                    }
                }
                if is_pending(next, path, is_dir) {
                    let i = choose|i: int|
                        0 <= i < next.len() && has_item(#[trigger] next[i], path, is_dir);
                    assert(all[i] == next[i]);
                }
                if is_errored(next) {
                    let i = choose|i: int|
                        0 <= i < next.len() && (#[trigger] next[i]).first_err is Some;
                    assert(all[i] == next[i]);
                }
                lemma_settled_len(all);
                lemma_left_in_order(dir, all);
                lemma_settled_keeps(all, path, is_dir);
            },
            _ => {
                lemma_settled_len(next);
                lemma_left_in_order(dir, next);
                lemma_settled_keeps(next, path, is_dir);
            },
        }
    } else {
        let outer = frames.drop_last();
        assert(frames.len() > 1);
        let f = removal_noted(outer.last(), reply->Removal_0);
        assert(is_clean(outer)) by {
            assert forall|i: int| 0 <= i < outer.len() implies ((
            #[trigger] outer[i]).first_err matches Some(e) ==> !(e is NotFound)) by {
                assert(outer[i] == frames[i]);
            }
        }
        assert(outer.last() == outer[outer.len() - 1]);
        lemma_same_todo(outer.last(), f, path, is_dir);
        lemma_with_top_clean(outer, f);
        let next = with_top(outer, f);
        if is_pending(frames, path, is_dir) {
            let i = choose|i: int|
                0 <= i < frames.len() && has_item(#[trigger] frames[i], path, is_dir);
            assert(has_item(outer[i], path, is_dir));
            lemma_with_top_pending(outer, f, path, is_dir);
        }
        if is_errored(frames) {
            let i = choose|i: int|
                0 <= i < frames.len() && (#[trigger] frames[i]).first_err is Some;
            assert(outer[i].first_err is Some);
            lemma_with_top_errored(outer, f);
        }
        if f.first_err is Some {
            lemma_top_errored(outer.drop_last(), f);
        }
        lemma_settled_len(next);
        lemma_left_in_order(dir, next);
        lemma_settled_keeps(next, path, is_dir);
    }
}

/// Whether the directories that are being worked on are in order.
spec fn is_orderly(dir: Seq<char>, v: ReapView) -> bool {
    v matches ReapView::Walk(frames) ==> frames.len() > 0 && is_clean(frames) && is_left_in_order(
        dir,
        frames,
    )
}

proof fn lemma_run_orderly(
    dir: Seq<char>,
    uuid: Seq<char>,
    desired: Seq<Seq<char>>,
    states: Seq<ReapView>,
    replies: Seq<ReapReply>,
    k: int,
)
    requires
        is_run(dir, uuid, desired, states, replies),
        0 <= k < states.len(),
    ensures
        is_orderly(dir, states[k]),
        k > 0 ==> !(states[k] is Start),
        states[k] is Failed ==> k == replies.len(),
    decreases k,
{
    if k < replies.len() {
        let r = replies[k];
    }
    if k > 0 {
        lemma_run_orderly(dir, uuid, desired, states, replies, k - 1);
        let r = replies[k - 1];
        match states[k - 1] {
            ReapView::Walk(frames) => {
                lemma_step_keeps(
                    dir,
                    uuid,
                    desired,
                    frames,
                    r,
                    states[k]->Walk_0,
                    Seq::empty(),
                    false,
                );
            },
            ReapView::Start => {
                if let ReapReply::Listing(Ok(entries)) = r {
                    let root = seq![opened(dir, Seq::empty(), uuid, desired, entries)];
                    assert(is_clean(root));
                    lemma_settled_len(root);
                    lemma_settled_keeps(root, Seq::empty(), false);
                    lemma_left_in_order(dir, root);
                }
            },
            ReapView::Failed(_) => {},
        }
    }
}

/// An error is never forgotten.
proof fn lemma_error_stays(
    dir: Seq<char>,
    uuid: Seq<char>,
    desired: Seq<Seq<char>>,
    states: Seq<ReapView>,
    replies: Seq<ReapReply>,
    k: int,
)
    requires
        is_run(dir, uuid, desired, states, replies),
        0 <= k < states.len(),
        states[k] matches ReapView::Walk(frames) && is_errored(frames),
        next_step(dir, states.last()) is Finished,
    ensures
        outcome_of(states.last()) is Err,
    decreases states.len() - k,
{
    lemma_run_orderly(dir, uuid, desired, states, replies, k);
    let frames = states[k]->Walk_0;
    if k < replies.len() {
        let r = replies[k];
        lemma_step_keeps(
            dir,
            uuid,
            desired,
            frames,
            r,
            states[k + 1]->Walk_0,
            Seq::empty(),
            false,
        );
        lemma_error_stays(dir, uuid, desired, states, replies, k + 1);
    } else {
        let i = choose|i: int| 0 <= i < frames.len() && (#[trigger] frames[i]).first_err is Some;
        assert(frames.len() == 1);
        assert(frames[i] == frames.last());
    }
}

proof fn lemma_comes_up(
    dir: Seq<char>,
    uuid: Seq<char>,
    desired: Seq<Seq<char>>,
    states: Seq<ReapView>,
    replies: Seq<ReapReply>,
    k: int,
    path: Seq<char>,
    is_dir: bool,
) -> (at: int)
    requires
        is_run(dir, uuid, desired, states, replies),
        next_step(dir, states.last()) is Finished,
        is_dir ==> outcome_of(states.last()) is Ok,
        0 <= k < states.len(),
        states[k] matches ReapView::Walk(frames) && is_pending(frames, path, is_dir),
    ensures
        k <= at < replies.len(),
        next_step(dir, states[at]) == (if is_dir {
            ReapStepView::List(path)
        } else {
            ReapStepView::RemoveFile(path)
        }),
    decreases states.len() - k,
{
    lemma_run_orderly(dir, uuid, desired, states, replies, k);
    let frames = states[k]->Walk_0;
    if k == replies.len() {
        let i = choose|i: int| 0 <= i < frames.len() && has_item(#[trigger] frames[i], path, is_dir);
        assert(frames.len() == 1 && frames.last().todo.len() == 0);
        assert(frames[i] == frames.last());
        k
    } else {
        let r = replies[k];
        let after = states[k + 1]->Walk_0;
        lemma_step_keeps(dir, uuid, desired, frames, r, after, path, is_dir);
        if next_step(dir, states[k]) == (if is_dir {
            ReapStepView::List(path)
        } else {
            ReapStepView::RemoveFile(path)
        }) {
            k
        } else {
            if is_dir && is_errored(after) {
                lemma_error_stays(dir, uuid, desired, states, replies, k + 1);
            }
            lemma_comes_up(dir, uuid, desired, states, replies, k + 1, path, is_dir)
        }
    }
}

/// When the work has come to its end, every file that a listing has shown of the document, and
/// that the document no longer has, has been given to be removed. If it has ended well, every
/// directory that a listing has shown of the document has been listed in turn. In the document
/// directory only what bears the document's name counts, or its name with a dot and an ending.
pub proof fn everything_left_over_goes(
    dir: Seq<char>,
    uuid: Seq<char>,
    desired: Seq<Seq<char>>,
    states: Seq<ReapView>,
    replies: Seq<ReapReply>,
    at: int,
    path: Seq<char>,
    entries: Seq<DirEntryView>,
    j: int,
    file: Seq<char>,
)
    requires
        is_run(dir, uuid, desired, states, replies),
        next_step(dir, states.last()) is Finished,
        0 <= at < replies.len(),
        next_step(dir, states[at]) == ReapStepView::List(path),
        replies[at] == ReapReply::Listing(Ok(entries)),
        0 <= j < entries.len(),
        device::is_safe_name(entries[j].name),
        path == dir ==> entries[j].name == uuid || text::has_prefix(
            entries[j].name,
            uuid + "."@,
        ),
        dir + "/"@ + file == path + "/"@ + entries[j].name,
    ensures
        !entries[j].is_dir && !desired.contains(file) ==> exists|k: int|
            at < k < replies.len() && #[trigger] next_step(dir, states[k])
                == ReapStepView::RemoveFile(path + "/"@ + entries[j].name),
        entries[j].is_dir && outcome_of(states.last()) is Ok ==> exists|k: int|
            at < k < replies.len() && #[trigger] next_step(dir, states[k]) == ReapStepView::List(
                path + "/"@ + entries[j].name,
            ),
{
    let e = entries[j];
    let r = replies[at];
    if (!e.is_dir && !desired.contains(file)) || (e.is_dir && outcome_of(states.last()) is Ok) {
        lemma_run_sound(dir, uuid, desired, states, replies, at);
        lemma_run_orderly(dir, uuid, desired, states, replies, at);
        let (rel, before) = match states[at] {
            ReapView::Walk(frames) => {
                let top = frames.last();
                assert(is_sound(
                    dir,
                    uuid,
                    desired,
                    frames[frames.len() - 1],
                    frames.len() - 1 == 0,
                ));
                let name = top.todo[0].name;
                assert(takes_part(top.todo[0].name, top.rel, uuid));
                lemma_part(uuid, top.rel, name);
                if frames.len() > 1 {
                    lemma_child_place(dir, top.rel, name);
                }
                assert(path == device::child_path(dir, child_rel(top.rel, name)));
                reveal_strlit("/");
                assert(path.len() > dir.len());
                (child_rel(top.rel, name), with_top(frames, advanced(top)))
            },
            _ => (Seq::<char>::empty(), Seq::<FrameView>::empty()),
        };
        let opened_frame = opened(path, rel, uuid, desired, entries);
        let all = before.push(opened_frame);
        assert(seq![opened_frame] =~= Seq::<FrameView>::empty().push(opened_frame));
        assert(states[at + 1] == ReapView::Walk(settled(all)));
        if rel.len() > 0 {
            assert(device::child_path(path, e.name) =~= device::child_path(
                dir,
                rel + "/"@ + e.name,
            ));
            device::lemma_child_path_injective(dir, file, rel + "/"@ + e.name);
        } else {
            device::lemma_child_path_injective(dir, file, e.name);
        }
        leftovers_are_seen_to(rel, uuid, desired, entries, j);
        let item = ReapItemView { name: e.name, is_dir: e.is_dir };
        let i = choose|i: int| 0 <= i < opened_frame.todo.len() && opened_frame.todo[i] == item;
        let goal = path + "/"@ + e.name;
        assert(opened_frame.todo[i].is_dir == e.is_dir);
        assert(has_item(opened_frame, goal, e.is_dir));
        assert(all[before.len() as int] == opened_frame);
        assert(is_pending(all, goal, e.is_dir));
        assert(is_clean(all)) by {
            if let ReapView::Walk(frames) = states[at] {
                assert(frames.last() == frames[frames.len() - 1]);
                lemma_with_top_clean(frames, advanced(frames.last()));
            }
            assert forall|i: int| 0 <= i < all.len() implies ((
            #[trigger] all[i]).first_err matches Some(e) ==> !(e is NotFound)) by {
                if i < before.len() {
                    assert(all[i] == before[i]);
                }
            }
        }
        lemma_settled_keeps(all, goal, e.is_dir);
        if e.is_dir && is_errored(settled(all)) {
            lemma_error_stays(dir, uuid, desired, states, replies, at + 1);
        }
        let k = lemma_comes_up(
            dir,
            uuid,
            desired,
            states,
            replies,
            at + 1,
            goal,
            e.is_dir,
        );
        assert(next_step(dir, states[k]) == (if e.is_dir {
            ReapStepView::List(goal)
        } else {
            ReapStepView::RemoveFile(goal)
        }));
    }
}

/// A step that fails, other than because there was nothing to work on, is never forgotten: the
/// work then ends in an error.
pub proof fn failure_is_reported(
    dir: Seq<char>,
    uuid: Seq<char>,
    desired: Seq<Seq<char>>,
    states: Seq<ReapView>,
    replies: Seq<ReapReply>,
    at: int,
    e: DeviceErrorView,
)
    requires
        is_run(dir, uuid, desired, states, replies),
        next_step(dir, states.last()) is Finished,
        0 <= at < replies.len(),
        replies[at] == ReapReply::Listing(Err(e)) || replies[at] == ReapReply::Removal(Err(e)),
        !(e is NotFound) || at == 0,
    ensures
        outcome_of(states.last()) is Err,
        at == 0 ==> outcome_of(states.last()) == Err::<(), DeviceErrorView>(e),
{
    let r = replies[at];
    lemma_run_orderly(dir, uuid, desired, states, replies, at);
    lemma_run_orderly(dir, uuid, desired, states, replies, at + 1);
    match states[at] {
        ReapView::Walk(frames) => {
            lemma_step_keeps(
                dir,
                uuid,
                desired,
                frames,
                r,
                states[at + 1]->Walk_0,
                Seq::empty(),
                false,
            );
            lemma_error_stays(dir, uuid, desired, states, replies, at + 1);
        },
        _ => {},
    }
}

/// A directory in which nothing is left to see to is removed next, if nothing in it stays and
/// nothing in it went wrong.
pub proof fn emptied_directory_goes(dir: Seq<char>, frames: Seq<FrameView>)
    requires
        frames.len() > 1,
        frames.last().todo.len() == 0,
        !frames.last().kept,
        frames.last().first_err is None,
    ensures
        next_step(dir, ReapView::Walk(settled(frames))) == ReapStepView::RemoveDir(
            frames.last().dev,
        ),
{
}

/// Of a directory that was listed, something stays exactly if one of its files is one that the
/// document has.
pub proof fn desired_file_keeps_its_directory(
    dev: Seq<char>,
    rel: Seq<char>,
    uuid: Seq<char>,
    desired: Seq<Seq<char>>,
    entries: Seq<DirEntryView>,
)
    requires
        rel.len() > 0,
    ensures
        opened(dev, rel, uuid, desired, entries).kept <==> exists|i: int|
            0 <= i < entries.len() && !(#[trigger] entries[i]).is_dir && device::is_safe_name(
                entries[i].name,
            ) && desired.contains(rel + "/"@ + entries[i].name),
        opened(dev, rel, uuid, desired, entries).first_err is None,
        opened(dev, rel, uuid, desired, entries).dev == dev,
{
    if exists|i: int|
        0 <= i < entries.len() && !(#[trigger] entries[i]).is_dir && device::is_safe_name(
            entries[i].name,
        ) && desired.contains(rel + "/"@ + entries[i].name) {
        let i = choose|i: int|
            0 <= i < entries.len() && !(#[trigger] entries[i]).is_dir && device::is_safe_name(
                entries[i].name,
            ) && desired.contains(rel + "/"@ + entries[i].name);
        assert(desired.contains(child_rel(rel, entries[i].name)));
    }
}

} // verus!
