//! Fetching the files of a document: those beside its directory, those in its directory, and its
//! thumbnails.

use vstd::prelude::*;

use crate::device;
use crate::device::order;
use crate::device::sftp;
use crate::device::DeviceError;
use crate::device::DeviceErrorView;
use crate::device::DirEntry;
use crate::device::DirEntryView;
use crate::device::RemoteFile;
use crate::device::RemoteFileView;
use crate::paths;
use crate::text;

verus! {

/// A step for the caller to take.
#[derive(Debug)]
pub enum FetchStep {
    /// Read a file.
    Read(String),
    /// List a directory.
    List(String),
    /// Nothing is left to do.
    Finished,
}

/// The model of a [`FetchStep`].
pub enum FetchStepView {
    Read(Seq<char>),
    List(Seq<char>),
    Finished,
}

impl DeepView for FetchStep {
    type V = FetchStepView;

    open spec fn deep_view(&self) -> FetchStepView {
        match *self {
            FetchStep::Read(p) => FetchStepView::Read(p@),
            FetchStep::List(p) => FetchStepView::List(p@),
            FetchStep::Finished => FetchStepView::Finished,
        }
    }
}

/// A file or directory below one of the document's directories.
#[derive(Debug)]
pub struct WalkItem {
    /// Its path on the tablet.
    pub dev: String,
    /// Its path among the document's files.
    pub rel: String,
    pub is_dir: bool,
    /// How many directories down it lies.
    pub depth: usize,
}

/// The model of a [`WalkItem`].
pub struct WalkItemView {
    pub dev: Seq<char>,
    pub rel: Seq<char>,
    pub is_dir: bool,
    pub depth: usize,
}

impl DeepView for WalkItem {
    type V = WalkItemView;

    open spec fn deep_view(&self) -> WalkItemView {
        WalkItemView { dev: self.dev@, rel: self.rel@, is_dir: self.is_dir, depth: self.depth }
    }
}

/// How far the work has come.
#[derive(Debug)]
pub enum Phase {
    /// The metadata tells whether the document is there.
    Probe,
    /// The document directory has to be listed.
    ListRoot,
    /// Files beside the document's directory have to be read.
    Siblings { names: Vec<String> },
    /// It is not known whether there is a directory, or one of thumbnails.
    ProbeDir { thumbs: bool },
    /// What lies in such a directory has to be read.
    Walk { thumbs: bool, stack: Vec<WalkItem>, todo: Vec<WalkItem> },
    Finished(Result<(), DeviceError>),
}

/// The model of a [`Phase`].
pub enum PhaseView {
    Probe,
    ListRoot,
    Siblings { names: Seq<Seq<char>> },
    ProbeDir { thumbs: bool },
    Walk { thumbs: bool, stack: Seq<WalkItemView>, todo: Seq<WalkItemView> },
    Finished(Result<(), DeviceErrorView>),
}

impl DeepView for Phase {
    type V = PhaseView;

    open spec fn deep_view(&self) -> PhaseView {
        match *self {
            Phase::Probe => PhaseView::Probe,
            Phase::ListRoot => PhaseView::ListRoot,
            Phase::Siblings { names } => PhaseView::Siblings { names: names.deep_view() },
            Phase::ProbeDir { thumbs } => PhaseView::ProbeDir { thumbs },
            Phase::Walk { thumbs, stack, todo } => PhaseView::Walk {
                thumbs,
                stack: stack.deep_view(),
                todo: todo.deep_view(),
            },
            Phase::Finished(r) => PhaseView::Finished(device::unit_outcome(r)),
        }
    }
}

/// The name of the document's directory, or of that of its thumbnails.
pub open spec fn area_name(uuid: Seq<char>, thumbs: bool) -> Seq<char> {
    if thumbs {
        uuid + ".thumbnails"@
    } else {
        uuid
    }
}

/// The path of the document's directory, or of that of its thumbnails.
pub open spec fn area_path(dir: Seq<char>, uuid: Seq<char>, thumbs: bool) -> Seq<char> {
    device::child_path(dir, area_name(uuid, thumbs))
}

fn name_of_area(uuid: &str, thumbs: bool) -> (s: String)
    ensures
        s@ == area_name(uuid@, thumbs),
{
    if thumbs {
        text::concat2(uuid, ".thumbnails")
    } else {
        uuid.to_owned()
    }
}

/// Whether an entry of the document directory is a file of the document. What an interrupted
/// upload has left behind is not.
pub open spec fn is_sibling(e: DirEntryView, uuid: Seq<char>) -> bool {
    &&& device::is_safe_name(e.name)
    &&& text::has_prefix(e.name, uuid + "."@)
    &&& !e.is_dir
    &&& !text::has_suffix(e.name, ".rehydrate-tmp"@)
    &&& !text::has_suffix(e.name, ".rehydrate-bak"@)
}

/// The files of a document beside its directory.
pub open spec fn siblings(entries: Seq<DirEntryView>, uuid: Seq<char>) -> Seq<Seq<char>>
    decreases entries.len(),
{
    if entries.len() == 0 {
        seq![]
    } else {
        let rest = siblings(entries.drop_last(), uuid);
        if is_sibling(entries.last(), uuid) {
            rest.push(entries.last().name)
        } else {
            rest
        }
    }
}

/// What lies in a directory, without links and without names that lead elsewhere.
pub open spec fn items_in(d: WalkItemView, entries: Seq<DirEntryView>) -> Seq<WalkItemView>
    decreases entries.len(),
{
    if entries.len() == 0 {
        seq![]
    } else {
        let rest = items_in(d, entries.drop_last());
        let e = entries.last();
        if device::is_safe_name(e.name) && !e.is_symlink {
            rest.push(
                WalkItemView {
                    dev: device::child_path(d.dev, e.name),
                    rel: paths::joined(d.rel, e.name),
                    is_dir: e.is_dir,
                    depth: (d.depth + 1) as usize,
                },
            )
        } else {
            rest
        }
    }
}

/// What comes after a directory is done.
pub open spec fn next_area(thumbs: bool) -> PhaseView {
    if thumbs {
        PhaseView::Finished(Ok(()))
    } else {
        PhaseView::ProbeDir { thumbs: true }
    }
}

/// Goes on to the next file or directory. Directories wait until the files before them are read;
/// the last one to be met is entered first.
pub open spec fn walk_on(
    thumbs: bool,
    stack: Seq<WalkItemView>,
    todo: Seq<WalkItemView>,
) -> PhaseView
    decreases todo.len(),
{
    if todo.len() == 0 {
        if stack.len() == 0 {
            next_area(thumbs)
        } else {
            PhaseView::Walk { thumbs, stack, todo }
        }
    } else if todo[0].is_dir {
        if todo[0].depth > sftp::MAX_SUBTREE_DEPTH {
            PhaseView::Finished(
                Err(DeviceErrorView::Other("subtree depth exceeds 16 at "@ + todo[0].dev)),
            )
        } else {
            walk_on(thumbs, stack.push(todo[0]), todo.skip(1))
        }
    } else {
        PhaseView::Walk { thumbs, stack, todo }
    }
}

/// Goes on to the next file beside the document's directory.
pub open spec fn siblings_on(names: Seq<Seq<char>>) -> PhaseView {
    if names.len() == 0 {
        PhaseView::ProbeDir { thumbs: false }
    } else {
        PhaseView::Siblings { names }
    }
}

/// The step that comes next.
pub open spec fn next_step(dir: Seq<char>, uuid: Seq<char>, p: PhaseView) -> FetchStepView {
    match p {
        PhaseView::Probe => FetchStepView::Read(device::child_path(dir, uuid + ".metadata"@)),
        PhaseView::ListRoot => FetchStepView::List(dir),
        PhaseView::Siblings { names } => FetchStepView::Read(device::child_path(dir, names[0])),
        PhaseView::ProbeDir { thumbs } => FetchStepView::List(area_path(dir, uuid, thumbs)),
        PhaseView::Walk { thumbs, stack, todo } => if todo.len() > 0 {
            FetchStepView::Read(todo[0].dev)
        } else {
            FetchStepView::List(stack.last().dev)
        },
        PhaseView::Finished(_) => FetchStepView::Finished,
    }
}

/// A file that was read.
pub open spec fn fetched(path: Seq<char>, bytes: Seq<u8>) -> RemoteFileView {
    RemoteFileView { path, bytes, mode: 0o644 }
}

/// The model of a [`Fetch`]: the files so far, and what is left.
pub struct FetchView {
    pub out: Seq<RemoteFileView>,
    pub phase: PhaseView,
}

/// What follows on reading a file.
pub open spec fn after_read(v: FetchView, r: Result<Seq<u8>, DeviceErrorView>) -> FetchView {
    match r {
        Err(e) => FetchView { phase: PhaseView::Finished(Err(e)), ..v },
        Ok(bytes) => match v.phase {
            PhaseView::Probe => FetchView { phase: PhaseView::ListRoot, ..v },
            PhaseView::Siblings { names } => FetchView {
                out: v.out.push(fetched(names[0], bytes)),
                phase: siblings_on(names.skip(1)),
            },
            PhaseView::Walk { thumbs, stack, todo } => FetchView {
                out: v.out.push(fetched(text::with_replaced(todo[0].rel, '\\', "/"@), bytes)),
                phase: walk_on(thumbs, stack, todo.skip(1)),
            },
            _ => v,
        },
    }
}

/// What follows on listing a directory. A directory that is not there is no failure where it is
/// only probed for.
pub open spec fn after_listing(
    dir: Seq<char>,
    uuid: Seq<char>,
    v: FetchView,
    r: Result<Seq<DirEntryView>, DeviceErrorView>,
) -> FetchView {
    let phase = match v.phase {
        PhaseView::ListRoot => match r {
            Ok(entries) => siblings_on(siblings(entries, uuid)),
            Err(e) => PhaseView::Finished(Err(e)),
        },
        PhaseView::ProbeDir { thumbs } => match r {
            Ok(_) => PhaseView::Walk {
                thumbs,
                stack: seq![
                    WalkItemView {
                        dev: area_path(dir, uuid, thumbs),
                        rel: area_name(uuid, thumbs),
                        is_dir: true,
                        depth: 0,
                    },
                ],
                todo: seq![],
            },
            Err(e) => if e is NotFound {
                next_area(thumbs)
            } else {
                PhaseView::Finished(Err(e))
            },
        },
        PhaseView::Walk { thumbs, stack, todo } => match r {
            Ok(entries) => walk_on(thumbs, stack.drop_last(), items_in(stack.last(), entries)),
            Err(e) => PhaseView::Finished(Err(e)),
        },
        other => other,
    };
    FetchView { phase, ..v }
}

/// Whether there is something to do where there has to be, and no directory on the stack lies
/// too deep.
pub open spec fn phase_wf(p: PhaseView) -> bool {
    match p {
        PhaseView::Siblings { names } => names.len() > 0,
        PhaseView::Walk { thumbs, stack, todo } => {
            &&& todo.len() > 0 || stack.len() > 0
            &&& todo.len() > 0 ==> !todo[0].is_dir
            &&& forall|i: int|
                0 <= i < stack.len() ==> (#[trigger] stack[i]).depth <= sftp::MAX_SUBTREE_DEPTH
        },
        _ => true,
    }
}

/// The work of fetching one document.
pub struct Fetch {
    dir: String,
    uuid: String,
    out: Vec<RemoteFile>,
    phase: Phase,
}

impl Fetch {
    /// The document directory.
    pub closed spec fn dir(&self) -> Seq<char> {
        self.dir@
    }

    /// The document.
    pub closed spec fn uuid(&self) -> Seq<char> {
        self.uuid@
    }

    /// How far the work has come.
    pub closed spec fn view(&self) -> FetchView {
        FetchView { out: self.out.deep_view(), phase: self.phase.deep_view() }
    }

    /// Whether there is something to do where there has to be.
    pub open spec fn wf(&self) -> bool {
        phase_wf(self@.phase)
    }

    /// Starts on a document.
    pub fn new(dir: &str, uuid: &str) -> (f: Self)
        ensures
            f.wf(),
            f.dir() == dir@,
            f.uuid() == uuid@,
            f@ == (FetchView { out: seq![], phase: PhaseView::Probe }),
    {
        let f = Fetch {
            dir: dir.to_owned(),
            uuid: uuid.to_owned(),
            out: Vec::new(),
            phase: Phase::Probe,
        };
        assert(f@.out =~= seq![]);
        f
    }

    /// The step that comes next.
    pub fn step(&self) -> (s: FetchStep)
        requires
            self.wf(),
        ensures
            s.deep_view() == next_step(self.dir(), self.uuid(), self@.phase),
    {
        match &self.phase {
            Phase::Probe => {
                let name = text::concat2(self.uuid.as_str(), ".metadata");
                FetchStep::Read(device::child(self.dir.as_str(), name.as_str()))
            },
            Phase::ListRoot => FetchStep::List(self.dir.clone()),
            Phase::Siblings { names } => {
                assert(names.deep_view().len() == names@.len());
                assert(names.deep_view()[0] == names@[0]@);
                FetchStep::Read(device::child(self.dir.as_str(), names[0].as_str()))
            },
            Phase::ProbeDir { thumbs } => {
                let name = name_of_area(self.uuid.as_str(), *thumbs);
                FetchStep::List(device::child(self.dir.as_str(), name.as_str()))
            },
            Phase::Walk { thumbs: _, stack, todo } => {
                assert(todo.deep_view().len() == todo@.len());
                assert(stack.deep_view().len() == stack@.len());
                if todo.len() > 0 {
                    assert(todo.deep_view()[0] == todo@[0].deep_view());
                    FetchStep::Read(todo[0].dev.clone())
                } else {
                    assert(stack.deep_view().last() == stack@[stack@.len() - 1].deep_view());
                    FetchStep::List(stack[stack.len() - 1].dev.clone())
                }
            },
            Phase::Finished(_) => FetchStep::Finished,
        }
    }

    /// Takes in the bytes of a file.
    pub fn read(self, r: Result<Vec<u8>, DeviceError>) -> (f: Self)
        requires
            self.wf(),
            next_step(self.dir(), self.uuid(), self@.phase) is Read,
        ensures
            f.wf(),
            f.dir() == self.dir(),
            f.uuid() == self.uuid(),
            f@ == after_read(
                self@,
                match r {
                    Ok(bytes) => Ok(bytes@),
                    Err(e) => Err(e.deep_view()),
                },
            ),
    {
        let Fetch { dir, uuid, mut out, phase } = self;
        let ghost before = out.deep_view();
        let bytes = match r {
            Ok(bytes) => bytes,
            Err(e) => {
                return Fetch { dir, uuid, out, phase: Phase::Finished(Err(e)) };
            },
        };
        let phase = match phase {
            Phase::Siblings { mut names } => {
                let ghost all = names.deep_view();
                assert(all.len() == names@.len());
                let path = names.remove(0);
                assert(path@ == all[0]);
                assert(names.deep_view() =~= all.skip(1));
                let file = RemoteFile { path, bytes, mode: 0o644 };
                out.push(file);
                assert(out.deep_view() =~= before.push(file.deep_view()));
                proceed_siblings(names)
            },
            Phase::Walk { thumbs, stack, mut todo } => {
                let ghost items = todo.deep_view();
                assert(items.len() == todo@.len());
                assert(stack.deep_view().len() == stack@.len());
                let item = todo.remove(0);
                assert(item.deep_view() == items[0]);
                assert(todo.deep_view() =~= items.skip(1));
                let path = text::replace_char(item.rel.as_str(), '\\', "/");
                let file = RemoteFile { path, bytes, mode: 0o644 };
                out.push(file);
                assert(out.deep_view() =~= before.push(file.deep_view()));
                proceed(thumbs, stack, todo)
            },
            Phase::Probe => Phase::ListRoot,
            other => other,
        };
        Fetch { dir, uuid, out, phase }
    }

    /// Takes in a listing.
    pub fn listed(self, r: Result<Vec<DirEntry>, DeviceError>) -> (f: Self)
        requires
            self.wf(),
            next_step(self.dir(), self.uuid(), self@.phase) is List,
        ensures
            f.wf(),
            f.dir() == self.dir(),
            f.uuid() == self.uuid(),
            f@ == after_listing(self.dir(), self.uuid(), self@, device::device_outcome(r)),
    {
        let Fetch { dir, uuid, out, phase } = self;
        let phase = match phase {
            Phase::ListRoot => match r {
                Ok(entries) => proceed_siblings(collect_siblings(&entries, uuid.as_str())),
                Err(e) => Phase::Finished(Err(e)),
            },
            Phase::ProbeDir { thumbs } => match r {
                Ok(_) => {
                    let rel = name_of_area(uuid.as_str(), thumbs);
                    let dev = device::child(dir.as_str(), rel.as_str());
                    let root = WalkItem { dev, rel, is_dir: true, depth: 0 };
                    let mut stack: Vec<WalkItem> = Vec::new();
                    let todo: Vec<WalkItem> = Vec::new();
                    stack.push(root);
                    assert(stack.deep_view() =~= seq![root.deep_view()]);
                    assert(todo.deep_view() =~= seq![]);
                    Phase::Walk { thumbs, stack, todo }
                },
                Err(e) => if e.is_not_found() {
                    leave_area(thumbs)
                } else {
                    Phase::Finished(Err(e))
                },
            },
            Phase::Walk { thumbs, mut stack, todo } => match r {
                Ok(entries) => {
                    let ghost before = stack.deep_view();
                    assert(before.len() == stack@.len());
                    assert(todo.deep_view().len() == todo@.len());
                    let n: usize = stack.len();
                    let d = stack.remove(n - 1);
                    assert(d.deep_view() == before.last());
                    assert(stack.deep_view() =~= before.drop_last());
                    assert(d.deep_view() == before[n - 1]);
                    let items = collect_items(&d, &entries);
                    proceed(thumbs, stack, items)
                },
                Err(e) => Phase::Finished(Err(e)),
            },
            other => other,
        };
        Fetch { dir, uuid, out, phase }
    }

    /// The files of the document, in the order of their paths; or what went wrong.
    pub fn finish(self) -> (r: Result<Vec<RemoteFile>, DeviceError>)
        requires
            next_step(self.dir(), self.uuid(), self@.phase) is Finished,
        ensures
            device::device_outcome(r) == (match self@.phase {
                PhaseView::Finished(Err(e)) => Err(e),
                _ => Ok(order::ordered::<RemoteFile>(self@.out)),
            }),
            r matches Ok(files) ==> files.deep_view().to_multiset() == self@.out.to_multiset(),
            r matches Ok(files) ==> forall|i: int, j: int|
                0 <= i < j < files@.len() ==> !text::lex_less(
                    (#[trigger] files@[j]).path@,
                    (#[trigger] files@[i]).path@,
                ),
    {
        match self.phase {
            Phase::Finished(Err(e)) => Err(e),
            _ => {
                proof {
                    order::ordering_sorts::<RemoteFile>(self@.out);
                }
                let files = order::order(self.out);
                assert forall|i: int, j: int| 0 <= i < j < files@.len() implies !text::lex_less(
                    (#[trigger] files@[j]).path@,
                    (#[trigger] files@[i]).path@,
                ) by {
                    assert(files.deep_view()[i] == files@[i].deep_view());
                    assert(files.deep_view()[j] == files@[j].deep_view());
                }
                Ok(files)
            },
        }
    }
}

fn leave_area(thumbs: bool) -> (p: Phase)
    ensures
        p.deep_view() == next_area(thumbs),
{
    if thumbs {
        Phase::Finished(Ok(()))
    } else {
        Phase::ProbeDir { thumbs: true }
    }
}

fn proceed_siblings(names: Vec<String>) -> (p: Phase)
    ensures
        p.deep_view() == siblings_on(names.deep_view()),
        phase_wf(p.deep_view()),
{
    assert(names.deep_view().len() == names@.len());
    if names.len() == 0 {
        Phase::ProbeDir { thumbs: false }
    } else {
        Phase::Siblings { names }
    }
}

fn proceed(thumbs: bool, stack: Vec<WalkItem>, todo: Vec<WalkItem>) -> (p: Phase)
    requires
        forall|i: int|
            0 <= i < stack@.len() ==> (#[trigger] stack.deep_view()[i]).depth
                <= sftp::MAX_SUBTREE_DEPTH,
    ensures
        p.deep_view() == walk_on(thumbs, stack.deep_view(), todo.deep_view()),
        phase_wf(p.deep_view()),
    decreases todo@.len(),
{
    let mut stack = stack;
    let mut todo = todo;
    let ghost held = stack.deep_view();
    let ghost items = todo.deep_view();
    assert(held.len() == stack@.len());
    assert(items.len() == todo@.len());
    if todo.len() == 0 {
        if stack.len() == 0 {
            return leave_area(thumbs);
        }
        return Phase::Walk { thumbs, stack, todo };
    }
    assert(items[0] == todo@[0].deep_view());
    if !todo[0].is_dir {
        return Phase::Walk { thumbs, stack, todo };
    }
    let item = todo.remove(0);
    assert(todo.deep_view() =~= items.skip(1));
    if item.depth > sftp::MAX_SUBTREE_DEPTH {
        return Phase::Finished(
            Err(
                DeviceError::Other(
                    text::concat2("subtree depth exceeds 16 at ", item.dev.as_str()),
                ),
            ),
        );
    }
    stack.push(item);
    assert(stack.deep_view() =~= held.push(item.deep_view()));
    proceed(thumbs, stack, todo)
}

fn collect_siblings(entries: &Vec<DirEntry>, uuid: &str) -> (names: Vec<String>)
    ensures
        names.deep_view() == siblings(entries.deep_view(), uuid@),
{
    let prefix = text::concat2(uuid, ".");
    let ghost all = entries.deep_view();
    let mut names: Vec<String> = Vec::new();
    let mut i: usize = 0;
    proof {
        assert(all.take(0) =~= seq![]);
        assert(names.deep_view() =~= seq![]);
    }
    while i < entries.len()
        invariant
            all == entries.deep_view(),
            prefix@ == uuid@ + "."@,
            i <= entries.len(),
            names.deep_view() == siblings(all.take(i as int), uuid@),
        decreases entries.len() - i,
    {
        proof {
            assert(all.take(i + 1).drop_last() =~= all.take(i as int));
            assert(all.take(i + 1).last() == entries[i as int].deep_view());
        }
        let e = &entries[i];
        let name = e.name.as_str();
        if device::is_safe_entry_name(name) && text::starts_with(name, prefix.as_str()) && !e.is_dir
            && !text::ends_with(name, ".rehydrate-tmp") && !text::ends_with(name, ".rehydrate-bak") {
            let ghost before = names.deep_view();
            let copy = e.name.clone();
            names.push(copy);
            assert(names.deep_view() =~= before.push(copy@));
        }
        i = i + 1;
    }
    assert(all.take(all.len() as int) =~= all);
    names
}

fn collect_items(d: &WalkItem, entries: &Vec<DirEntry>) -> (items: Vec<WalkItem>)
    requires
        d.depth <= sftp::MAX_SUBTREE_DEPTH,
    ensures
        items.deep_view() == items_in(d.deep_view(), entries.deep_view()),
{
    let ghost all = entries.deep_view();
    let mut items: Vec<WalkItem> = Vec::new();
    let mut i: usize = 0;
    proof {
        assert(all.take(0) =~= seq![]);
        assert(items.deep_view() =~= seq![]);
    }
    while i < entries.len()
        invariant
            d.depth <= sftp::MAX_SUBTREE_DEPTH,
            all == entries.deep_view(),
            i <= entries.len(),
            items.deep_view() == items_in(d.deep_view(), all.take(i as int)),
        decreases entries.len() - i,
    {
        proof {
            assert(all.take(i + 1).drop_last() =~= all.take(i as int));
            assert(all.take(i + 1).last() == entries[i as int].deep_view());
        }
        let e = &entries[i];
        if device::is_safe_entry_name(e.name.as_str()) && !e.is_symlink {
            let ghost before = items.deep_view();
            let item = WalkItem {
                dev: device::child(d.dev.as_str(), e.name.as_str()),
                rel: paths::join(d.rel.as_str(), e.name.as_str()),
                is_dir: e.is_dir,
                depth: d.depth + 1,
            };
            items.push(item);
            assert(items.deep_view() =~= before.push(item.deep_view()));
        }
        i = i + 1;
    }
    assert(all.take(all.len() as int) =~= all);
    items
}

/// Whether a path can be reached from a directory by so many safe names.
pub open spec fn reaches(root: Seq<char>, path: Seq<char>, steps: nat) -> bool
    decreases steps,
{
    if steps == 0 {
        path == root
    } else {
        exists|outer: Seq<char>, name: Seq<char>|
            reaches(root, outer, (steps - 1) as nat) && device::is_safe_name(name) && path
                == #[trigger] device::child_path(outer, name)
    }
}

/// Whether everything below a directory is reached by as many safe names as it lies down.
pub open spec fn all_reached(root: Seq<char>, items: Seq<WalkItemView>) -> bool {
    forall|i: int|
        0 <= i < items.len() ==> reaches(root, (#[trigger] items[i]).dev, items[i].depth as nat)
}

/// Whether the work touches nothing but the document.
pub open spec fn stays_inside(dir: Seq<char>, uuid: Seq<char>, p: PhaseView) -> bool {
    match p {
        PhaseView::Siblings { names } => forall|i: int|
            0 <= i < names.len() ==> device::is_safe_name(#[trigger] names[i]) && text::has_prefix(
                names[i],
                uuid + "."@,
            ),
        PhaseView::Walk { thumbs, stack, todo } => {
            &&& all_reached(area_path(dir, uuid, thumbs), stack)
            &&& all_reached(area_path(dir, uuid, thumbs), todo)
        },
        _ => true,
    }
}

proof fn lemma_siblings_inside(entries: Seq<DirEntryView>, uuid: Seq<char>)
    ensures
        forall|i: int|
            0 <= i < siblings(entries, uuid).len() ==> device::is_safe_name(
                #[trigger] siblings(entries, uuid)[i],
            ) && text::has_prefix(siblings(entries, uuid)[i], uuid + "."@),
    decreases entries.len(),
{
    if entries.len() > 0 {
        lemma_siblings_inside(entries.drop_last(), uuid);
        let rest = siblings(entries.drop_last(), uuid);
        let all = siblings(entries, uuid);
        assert forall|i: int| 0 <= i < all.len() implies device::is_safe_name(#[trigger] all[i])
            && text::has_prefix(all[i], uuid + "."@) by {
            if i < rest.len() {
                assert(all[i] == rest[i]);
            }
        }
    }
}

proof fn lemma_items_inside(root: Seq<char>, d: WalkItemView, entries: Seq<DirEntryView>)
    requires
        reaches(root, d.dev, d.depth as nat),
        d.depth <= sftp::MAX_SUBTREE_DEPTH,
    ensures
        all_reached(root, items_in(d, entries)),
    decreases entries.len(),
{
    if entries.len() > 0 {
        lemma_items_inside(root, d, entries.drop_last());
        let rest = items_in(d, entries.drop_last());
        let all = items_in(d, entries);
        assert forall|i: int| 0 <= i < all.len() implies reaches(
            root,
            (#[trigger] all[i]).dev,
            all[i].depth as nat,
        ) by {
            if i < rest.len() {
                assert(all[i] == rest[i]);
            } else {
                let name = entries.last().name;
                assert(all[i].dev == device::child_path(d.dev, name));
                assert(all[i].depth == d.depth + 1);
            }
        }
    }
}

proof fn lemma_walk_inside(
    dir: Seq<char>,
    uuid: Seq<char>,
    thumbs: bool,
    stack: Seq<WalkItemView>,
    todo: Seq<WalkItemView>,
)
    requires
        all_reached(area_path(dir, uuid, thumbs), stack),
        all_reached(area_path(dir, uuid, thumbs), todo),
    ensures
        stays_inside(dir, uuid, walk_on(thumbs, stack, todo)),
    decreases todo.len(),
{
    if todo.len() > 0 && todo[0].is_dir && todo[0].depth <= sftp::MAX_SUBTREE_DEPTH {
        let root = area_path(dir, uuid, thumbs);
        let more = stack.push(todo[0]);
        let rest = todo.skip(1);
        assert forall|i: int| 0 <= i < more.len() implies reaches(
            root,
            (#[trigger] more[i]).dev,
            more[i].depth as nat,
        ) by {
            if i < stack.len() {
                assert(more[i] == stack[i]);
            } else {
                assert(more[i] == todo[0]);
            }
        }
        assert forall|i: int| 0 <= i < rest.len() implies reaches(
            root,
            (#[trigger] rest[i]).dev,
            rest[i].depth as nat,
        ) by {
            assert(rest[i] == todo[i + 1]);
        }
        lemma_walk_inside(dir, uuid, thumbs, more, rest);
    }
}

/// What an interrupted upload has left beside a document is never taken for one of its files.
pub proof fn leftovers_are_not_fetched(entries: Seq<DirEntryView>, uuid: Seq<char>, path: Seq<char>)
    ensures
        !siblings(entries, uuid).contains(sftp::staged(path)),
        !siblings(entries, uuid).contains(sftp::backup(path)),
    decreases entries.len(),
{
    if entries.len() > 0 {
        leftovers_are_not_fetched(entries.drop_last(), uuid, path);
        let rest = siblings(entries.drop_last(), uuid);
        let all = siblings(entries, uuid);
        assert forall|i: int| 0 <= i < all.len() implies (#[trigger] all[i]) != sftp::staged(path)
            && all[i] != sftp::backup(path) by {
            if i < rest.len() {
                assert(all[i] == rest[i]);
                assert(rest.contains(rest[i]));
            } else {
                lemma_has_own_suffix(path, ".rehydrate-tmp"@);
                lemma_has_own_suffix(path, ".rehydrate-bak"@);
            }
        }
    }
}

/// What is written behind a text is what it ends with.
proof fn lemma_has_own_suffix(s: Seq<char>, suffix: Seq<char>)
    ensures
        text::has_suffix(s + suffix, suffix),
{
    assert((s + suffix).skip(s.len() as int) =~= suffix);
}

/// Whatever names the tablet sends, a listing leads to nothing outside the document.
pub proof fn listing_stays_inside(
    dir: Seq<char>,
    uuid: Seq<char>,
    v: FetchView,
    r: Result<Seq<DirEntryView>, DeviceErrorView>,
)
    requires
        phase_wf(v.phase),
        stays_inside(dir, uuid, v.phase),
        next_step(dir, uuid, v.phase) is List,
    ensures
        stays_inside(dir, uuid, after_listing(dir, uuid, v, r).phase),
{
    if let Ok(entries) = r {
        lemma_siblings_inside(entries, uuid);
        if let PhaseView::Walk { thumbs, stack, todo } = v.phase {
            let root = area_path(dir, uuid, thumbs);
            let d = stack[stack.len() - 1];
            lemma_items_inside(root, d, entries);
            let below = stack.drop_last();
            assert forall|i: int| 0 <= i < below.len() implies reaches(
                root,
                (#[trigger] below[i]).dev,
                below[i].depth as nat,
            ) by {
                assert(below[i] == stack[i]);
            }
            lemma_walk_inside(dir, uuid, thumbs, below, items_in(d, entries));
        }
    }
}

/// Reading a file leads to nothing outside the document.
pub proof fn read_stays_inside(
    dir: Seq<char>,
    uuid: Seq<char>,
    v: FetchView,
    r: Result<Seq<u8>, DeviceErrorView>,
)
    requires
        phase_wf(v.phase),
        stays_inside(dir, uuid, v.phase),
        next_step(dir, uuid, v.phase) is Read,
    ensures
        stays_inside(dir, uuid, after_read(v, r).phase),
{
    match v.phase {
        PhaseView::Siblings { names } => {
            let rest = names.skip(1);
            assert forall|i: int| 0 <= i < rest.len() implies device::is_safe_name(
                #[trigger] rest[i],
            ) && text::has_prefix(rest[i], uuid + "."@) by {
                assert(rest[i] == names[i + 1]);
            }
        },
        PhaseView::Walk { thumbs, stack, todo } => {
            let root = area_path(dir, uuid, thumbs);
            let rest = todo.skip(1);
            assert forall|i: int| 0 <= i < rest.len() implies reaches(
                root,
                (#[trigger] rest[i]).dev,
                rest[i].depth as nat,
            ) by {
                assert(rest[i] == todo[i + 1]);
            }
            lemma_walk_inside(dir, uuid, thumbs, stack, rest);
        },
        _ => {},
    }
}

/// Whether the path of something among the document's files tells where it lies on the tablet.
pub open spec fn is_placed(dir: Seq<char>, it: WalkItemView) -> bool {
    &&& it.dev == dir + "/"@ + it.rel
    &&& it.rel.len() > 0
    &&& it.rel.last() != '/'
    &&& forall|i: int| 0 <= i < it.rel.len() ==> #[trigger] it.rel[i] != '\\'
}

/// Whether the path of each thing that is left to do tells where it lies on the tablet.
pub open spec fn all_placed(dir: Seq<char>, p: PhaseView) -> bool {
    match p {
        PhaseView::Siblings { names } => forall|i: int|
            0 <= i < names.len() ==> device::is_safe_name(#[trigger] names[i]),
        PhaseView::Walk { thumbs, stack, todo } => {
            &&& forall|i: int| 0 <= i < stack.len() ==> is_placed(dir, #[trigger] stack[i])
            &&& forall|i: int| 0 <= i < todo.len() ==> is_placed(dir, #[trigger] todo[i])
        },
        _ => true,
    }
}

proof fn lemma_walk_placed(
    dir: Seq<char>,
    thumbs: bool,
    stack: Seq<WalkItemView>,
    todo: Seq<WalkItemView>,
)
    requires
        forall|i: int| 0 <= i < stack.len() ==> is_placed(dir, #[trigger] stack[i]),
        forall|i: int| 0 <= i < todo.len() ==> is_placed(dir, #[trigger] todo[i]),
    ensures
        all_placed(dir, walk_on(thumbs, stack, todo)),
    decreases todo.len(),
{
    if todo.len() > 0 && todo[0].is_dir && todo[0].depth <= sftp::MAX_SUBTREE_DEPTH {
        let more = stack.push(todo[0]);
        let rest = todo.skip(1);
        assert forall|i: int| 0 <= i < more.len() implies is_placed(dir, #[trigger] more[i]) by {
            if i < stack.len() {
                assert(more[i] == stack[i]);
            } else {
                assert(more[i] == todo[0]);
            }
        }
        assert forall|i: int| 0 <= i < rest.len() implies is_placed(dir, #[trigger] rest[i]) by {
            assert(rest[i] == todo[i + 1]);
        }
        lemma_walk_placed(dir, thumbs, more, rest);
    }
}

proof fn lemma_items_placed(dir: Seq<char>, d: WalkItemView, entries: Seq<DirEntryView>)
    requires
        is_placed(dir, d),
    ensures
        forall|i: int|
            0 <= i < items_in(d, entries).len() ==> is_placed(dir, #[trigger] items_in(d, entries)[i]),
    decreases entries.len(),
{
    if entries.len() > 0 {
        lemma_items_placed(dir, d, entries.drop_last());
        let rest = items_in(d, entries.drop_last());
        let all = items_in(d, entries);
        assert forall|i: int| 0 <= i < all.len() implies is_placed(dir, #[trigger] all[i]) by {
            if i < rest.len() {
                assert(all[i] == rest[i]);
            } else {
                let name = entries.last().name;
                let it = all[i];
                reveal_strlit("/");
                assert("/"@ =~= seq!['/']);
                assert(name.contains(name[0]));
                assert(name[0] != '/');
                assert(it.rel == d.rel + seq!['/'] + name);
                assert(it.dev =~= dir + "/"@ + it.rel);
                assert(name.contains(name.last()));
                assert(it.rel.last() == name.last());
                assert forall|k: int| 0 <= k < it.rel.len() implies #[trigger] it.rel[k] != '\\' by {
                    if k < d.rel.len() {
                        assert(it.rel[k] == d.rel[k]);
                    } else if k > d.rel.len() {
                        assert(it.rel[k] == name[k - d.rel.len() - 1]);
                        assert(name.contains(name[k - d.rel.len() - 1]));
                    }
                }
            }
        }
    }
}

proof fn lemma_listing_placed(
    dir: Seq<char>,
    uuid: Seq<char>,
    v: FetchView,
    r: Result<Seq<DirEntryView>, DeviceErrorView>,
)
    requires
        device::is_safe_name(uuid),
        phase_wf(v.phase),
        all_placed(dir, v.phase),
        next_step(dir, uuid, v.phase) is List,
    ensures
        all_placed(dir, after_listing(dir, uuid, v, r).phase),
{
    if let Ok(entries) = r {
        match v.phase {
            PhaseView::ListRoot => {
                lemma_siblings_inside(entries, uuid);
            },
            PhaseView::ProbeDir { thumbs } => {
                let rel = area_name(uuid, thumbs);
                reveal_strlit(".thumbnails");
                assert(uuid.contains(uuid.last()));
                assert forall|i: int| 0 <= i < rel.len() implies #[trigger] rel[i] != '\\' by {
                    if i < uuid.len() {
                        assert(rel[i] == uuid[i]);
                        assert(uuid.contains(uuid[i]));
                    } else {
                        assert(rel[i] == ".thumbnails"@[i - uuid.len()]);
                    }
                }
            },
            PhaseView::Walk { thumbs, stack, todo } => {
                let d = stack[stack.len() - 1];
                let below = stack.drop_last();
                lemma_items_placed(dir, d, entries);
                assert forall|i: int| 0 <= i < below.len() implies is_placed(
                    dir,
                    #[trigger] below[i],
                ) by {
                    assert(below[i] == stack[i]);
                }
                lemma_walk_placed(dir, thumbs, below, items_in(d, entries));
            },
            _ => {},
        }
    }
}

proof fn lemma_read_placed(
    dir: Seq<char>,
    uuid: Seq<char>,
    v: FetchView,
    r: Result<Seq<u8>, DeviceErrorView>,
)
    requires
        phase_wf(v.phase),
        all_placed(dir, v.phase),
        next_step(dir, uuid, v.phase) is Read,
    ensures
        all_placed(dir, after_read(v, r).phase),
{
    match v.phase {
        PhaseView::Siblings { names } => {
            let rest = names.skip(1);
            assert forall|i: int| 0 <= i < rest.len() implies device::is_safe_name(
                #[trigger] rest[i],
            ) by {
                assert(rest[i] == names[i + 1]);
            }
        },
        PhaseView::Walk { thumbs, stack, todo } => {
            let rest = todo.skip(1);
            assert forall|i: int| 0 <= i < rest.len() implies is_placed(dir, #[trigger] rest[i]) by {
                assert(rest[i] == todo[i + 1]);
            }
            lemma_walk_placed(dir, thumbs, stack, rest);
        },
        _ => {},
    }
}

/// A file that is read is kept: behind the files so far comes one with the bytes that were read,
/// whose path is that of the file on the tablet below the document directory. What tells whether
/// the document is there at all is read again later, as one of its files.
pub proof fn read_file_is_kept(
    dir: Seq<char>,
    uuid: Seq<char>,
    v: FetchView,
    path: Seq<char>,
    bytes: Seq<u8>,
)
    requires
        phase_wf(v.phase),
        all_placed(dir, v.phase),
        next_step(dir, uuid, v.phase) == FetchStepView::Read(path),
        !(v.phase is Probe),
    ensures
        ({
            let out = after_read(v, Ok(bytes)).out;
            &&& out.len() == v.out.len() + 1
            &&& out.drop_last() == v.out
            &&& out.last().bytes == bytes
            &&& out.last().mode == 0o644
            &&& path == dir + "/"@ + out.last().path
        }),
{
    let out = after_read(v, Ok(bytes)).out;
    assert(out.drop_last() =~= v.out);
    if let PhaseView::Walk { thumbs, stack, todo } = v.phase {
        assert(is_placed(dir, todo[0]));
        text::nothing_to_replace(todo[0].rel, '\\', "/"@);
    }
}

/// A listing leaves the files so far as they are.
pub proof fn listing_keeps_the_files(
    dir: Seq<char>,
    uuid: Seq<char>,
    v: FetchView,
    r: Result<Seq<DirEntryView>, DeviceErrorView>,
)
    ensures
        after_listing(dir, uuid, v, r).out == v.out,
{
}

/// A step that fails ends the work in its error; only that there is no directory where one is
/// probed for is no failure.
pub proof fn failed_step_ends_the_fetch(
    dir: Seq<char>,
    uuid: Seq<char>,
    v: FetchView,
    e: DeviceErrorView,
)
    ensures
        next_step(dir, uuid, v.phase) is Read ==> after_read(v, Err(e)).phase
            == PhaseView::Finished(Err(e)),
        next_step(dir, uuid, v.phase) is List && !(v.phase is ProbeDir && e is NotFound)
            ==> after_listing(dir, uuid, v, Err(e)).phase == PhaseView::Finished(Err(e)),
        v.phase is ProbeDir && e is NotFound ==> !(after_listing(dir, uuid, v, Err(e)).phase
            == PhaseView::Finished(Err(e))),
{
}

/// What came of a step: the bytes of a file, or a listing.
pub enum FetchReply {
    Read(Result<Seq<u8>, DeviceErrorView>),
    Listing(Result<Seq<DirEntryView>, DeviceErrorView>),
}

/// Whether a fetch goes through the given states, from the first one on, when its steps come out
/// as given.
pub open spec fn is_run(
    dir: Seq<char>,
    uuid: Seq<char>,
    states: Seq<FetchView>,
    replies: Seq<FetchReply>,
) -> bool {
    &&& states.len() == replies.len() + 1
    &&& states[0] == (FetchView { out: seq![], phase: PhaseView::Probe })
    &&& forall|k: int|
        0 <= k < replies.len() ==> {
            &&& phase_wf(states[k].phase)
            &&& match #[trigger] replies[k] {
                FetchReply::Read(r) => next_step(dir, uuid, states[k].phase) is Read && states[k
                    + 1] == after_read(states[k], r),
                FetchReply::Listing(r) => next_step(dir, uuid, states[k].phase) is List && states[k
                    + 1] == after_listing(dir, uuid, states[k], r),
            }
        }
}

proof fn lemma_walk_is_no_probe(
    thumbs: bool,
    stack: Seq<WalkItemView>,
    todo: Seq<WalkItemView>,
)
    ensures
        !(walk_on(thumbs, stack, todo) is Probe),
        !(walk_on(thumbs, stack, todo) is ListRoot),
        !(walk_on(thumbs, stack, todo) is Siblings),
        walk_on(thumbs, stack, todo) matches PhaseView::ProbeDir { thumbs: t } ==> t && !thumbs,
        walk_on(thumbs, stack, todo) matches PhaseView::Walk { thumbs: t, stack: s, todo: l } ==> t
            == thumbs,
        walk_on(thumbs, stack, todo) == PhaseView::Finished(Ok(())) ==> thumbs,
    decreases todo.len(),
{
    if todo.len() > 0 && todo[0].is_dir {
        lemma_walk_is_no_probe(thumbs, stack.push(todo[0]), todo.skip(1));
    }
}

proof fn lemma_run_placed(
    dir: Seq<char>,
    uuid: Seq<char>,
    states: Seq<FetchView>,
    replies: Seq<FetchReply>,
    k: int,
)
    requires
        device::is_safe_name(uuid),
        is_run(dir, uuid, states, replies),
        0 <= k <= replies.len(),
    ensures
        all_placed(dir, states[k].phase),
        states[k].phase is Probe <==> k == 0,
    decreases k,
{
    if k > 0 {
        lemma_run_placed(dir, uuid, states, replies, k - 1);
        let v = states[k - 1];
        match replies[k - 1] {
            FetchReply::Read(r) => {
                lemma_read_placed(dir, uuid, v, r);
                if let PhaseView::Walk { thumbs, stack, todo } = v.phase {
                    lemma_walk_is_no_probe(thumbs, stack, todo.skip(1));
                }
            },
            FetchReply::Listing(r) => {
                lemma_listing_placed(dir, uuid, v, r);
                if let PhaseView::Walk { thumbs, stack, todo } = v.phase {
                    if let Ok(entries) = r {
                        lemma_walk_is_no_probe(
                            thumbs,
                            stack.drop_last(),
                            items_in(stack.last(), entries),
                        );
                    }
                }
            },
        }
    }
}

/// The files of a fetch are those that it read, one for each read past the first, in the order in
/// which they were read: each has the bytes that the tablet sent for it, and the path from which
/// it was read below the document directory.
pub proof fn files_hold_what_was_read(
    dir: Seq<char>,
    uuid: Seq<char>,
    states: Seq<FetchView>,
    replies: Seq<FetchReply>,
    n: int,
)
    requires
        device::is_safe_name(uuid),
        is_run(dir, uuid, states, replies),
        0 <= n <= replies.len(),
    ensures
        forall|i: int|
            0 <= i < states[n].out.len() ==> exists|k: int|
                0 < k < n && states[k].out.len() == i && #[trigger] replies[k] == FetchReply::Read(
                    Ok((#[trigger] states[n].out[i]).bytes),
                ) && next_step(dir, uuid, states[k].phase) == FetchStepView::Read(
                    dir + "/"@ + states[n].out[i].path,
                ),
        forall|k: int|
            0 < k < n ==> (#[trigger] replies[k] matches FetchReply::Read(Ok(bytes)) ==> {
                let i = states[k].out.len() as int;
                &&& i < states[n].out.len()
                &&& states[n].out[i].bytes == bytes
                &&& states[n].out[i].mode == 0o644
                &&& next_step(dir, uuid, states[k].phase) == FetchStepView::Read(
                    dir + "/"@ + states[n].out[i].path,
                )
            }),
    decreases n,
{
    if n > 0 {
        files_hold_what_was_read(dir, uuid, states, replies, n - 1);
        lemma_run_placed(dir, uuid, states, replies, n - 1);
        let v = states[n - 1];
        let before = v.out;
        let out = states[n].out;
        let r = replies[n - 1];
        let fresh = n > 1 && (r matches FetchReply::Read(Ok(_)));
        if fresh {
            let path = next_step(dir, uuid, v.phase)->Read_0;
            read_file_is_kept(dir, uuid, v, path, r->Read_0->Ok_0);
            assert forall|i: int| 0 <= i < before.len() implies #[trigger] out[i] == before[i] by {
                assert(out.drop_last()[i] == out[i]);
            }
        } else {
            assert(out == before);
        }
        assert forall|i: int| 0 <= i < out.len() implies exists|k: int|
            0 < k < n && states[k].out.len() == i && #[trigger] replies[k] == FetchReply::Read(
                Ok((#[trigger] out[i]).bytes),
            ) && next_step(dir, uuid, states[k].phase) == FetchStepView::Read(
                dir + "/"@ + out[i].path,
            ) by {
            if i < before.len() {
                assert(out[i] == before[i]);
                let k = choose|k: int|
                    0 < k < n - 1 && states[k].out.len() == i && #[trigger] replies[k]
                        == FetchReply::Read(Ok(before[i].bytes)) && next_step(
                        dir,
                        uuid,
                        states[k].phase,
                    ) == FetchStepView::Read(dir + "/"@ + before[i].path);
                assert(replies[k] == FetchReply::Read(Ok(out[i].bytes)));
            } else {
                assert(replies[n - 1] == FetchReply::Read(Ok(out[i].bytes)));
            }
        }
    }
}

/// Whether something is still to be read or listed.
spec fn is_pending(p: PhaseView, it: WalkItemView) -> bool {
    p matches PhaseView::Walk { thumbs, stack, todo } && ((it.is_dir && stack.contains(it))
        || todo.contains(it))
}

proof fn lemma_walk_keeps(
    thumbs: bool,
    stack: Seq<WalkItemView>,
    todo: Seq<WalkItemView>,
    it: WalkItemView,
)
    requires
        (it.is_dir && stack.contains(it)) || todo.contains(it),
    ensures
        is_pending(walk_on(thumbs, stack, todo), it) || walk_on(thumbs, stack, todo)
            matches PhaseView::Finished(Err(_)),
    decreases todo.len(),
{
    if todo.len() > 0 && todo[0].is_dir && todo[0].depth <= sftp::MAX_SUBTREE_DEPTH {
        let more = stack.push(todo[0]);
        let rest = todo.skip(1);
        if it.is_dir && stack.contains(it) {
            let i = choose|i: int| 0 <= i < stack.len() && stack[i] == it;
            assert(more[i] == it);
        } else {
            let i = choose|i: int| 0 <= i < todo.len() && todo[i] == it;
            if i == 0 {
                assert(more[stack.len() as int] == it);
            } else {
                assert(rest[i - 1] == it);
            }
        }
        lemma_walk_keeps(thumbs, more, rest, it);
    }
}

/// The step that something is to be read or listed by.
spec fn step_for(it: WalkItemView) -> FetchStepView {
    if it.is_dir {
        FetchStepView::List(it.dev)
    } else {
        FetchStepView::Read(it.dev)
    }
}

proof fn lemma_comes_up(
    dir: Seq<char>,
    uuid: Seq<char>,
    states: Seq<FetchView>,
    replies: Seq<FetchReply>,
    k: int,
    it: WalkItemView,
) -> (at: int)
    requires
        is_run(dir, uuid, states, replies),
        states.last().phase == PhaseView::Finished(Ok(())),
        0 <= k < states.len(),
        is_pending(states[k].phase, it),
    ensures
        k <= at < replies.len(),
        states[at].phase is Walk,
        next_step(dir, uuid, states[at].phase) == step_for(it),
    decreases states.len() - k,
{
    assert(k < replies.len());
    let v = states[k];
    let r = replies[k];
    assert(phase_wf(v.phase));
    if let PhaseView::Walk { thumbs, stack, todo } = v.phase {
        let (stack2, todo2) = if todo.len() > 0 {
            (stack, todo.skip(1))
        } else {
            (stack.drop_last(), items_in(stack.last(), r->Listing_0->Ok_0))
        };
        if next_step(dir, uuid, v.phase) == step_for(it) {
            k
        } else {
            if k + 1 < replies.len() {
                let after = replies[k + 1];
            }
            assert(states[k + 1].phase == walk_on(thumbs, stack2, todo2));
            if it.is_dir && stack.contains(it) {
                let i = choose|i: int| 0 <= i < stack.len() && stack[i] == it;
                assert(stack2[i] == it);
            } else {
                let i = choose|i: int| 0 <= i < todo.len() && todo[i] == it;
                assert(i != 0);
                assert(todo2[i - 1] == it);
            }
            lemma_walk_keeps(thumbs, stack2, todo2, it);
            lemma_comes_up(dir, uuid, states, replies, k + 1, it)
        }
    } else {
        k
    }
}

proof fn lemma_items_complete(d: WalkItemView, entries: Seq<DirEntryView>, j: int)
    requires
        0 <= j < entries.len(),
        device::is_safe_name(entries[j].name),
        !entries[j].is_symlink,
    ensures
        items_in(d, entries).contains(
            WalkItemView {
                dev: d.dev + "/"@ + entries[j].name,
                rel: paths::joined(d.rel, entries[j].name),
                is_dir: entries[j].is_dir,
                depth: (d.depth + 1) as usize,
            },
        ),
    decreases entries.len(),
{
    let all = items_in(d, entries);
    let rest = items_in(d, entries.drop_last());
    let it = WalkItemView {
        dev: d.dev + "/"@ + entries[j].name,
        rel: paths::joined(d.rel, entries[j].name),
        is_dir: entries[j].is_dir,
        depth: (d.depth + 1) as usize,
    };
    if j == entries.len() - 1 {
        assert(all.last() == it);
    } else {
        lemma_items_complete(d, entries.drop_last(), j);
        let i = choose|i: int| 0 <= i < rest.len() && rest[i] == it;
        assert(all[i] == it);
    }
}

/// A fetch that ends well has read every file, and entered every directory, that a listing below
/// one of the document's directories has shown, but for links and for names that lead
/// elsewhere.
pub proof fn whole_directory_is_fetched(
    dir: Seq<char>,
    uuid: Seq<char>,
    states: Seq<FetchView>,
    replies: Seq<FetchReply>,
    at: int,
    path: Seq<char>,
    entries: Seq<DirEntryView>,
    j: int,
)
    requires
        is_run(dir, uuid, states, replies),
        states.last().phase == PhaseView::Finished(Ok(())),
        0 <= at < replies.len(),
        states[at].phase is Walk,
        next_step(dir, uuid, states[at].phase) == FetchStepView::List(path),
        replies[at] == FetchReply::Listing(Ok(entries)),
        0 <= j < entries.len(),
        device::is_safe_name(entries[j].name),
        !entries[j].is_symlink,
    ensures
        exists|k: int|
            at < k < replies.len() && #[trigger] next_step(dir, uuid, states[k].phase) == (
            if entries[j].is_dir {
                FetchStepView::List(path + "/"@ + entries[j].name)
            } else {
                FetchStepView::Read(path + "/"@ + entries[j].name)
            }),
{
    let r = replies[at];
    if let PhaseView::Walk { thumbs, stack, todo } = states[at].phase {
        let d = stack.last();
        let items = items_in(d, entries);
        lemma_items_complete(d, entries, j);
        let it = WalkItemView {
            dev: d.dev + "/"@ + entries[j].name,
            rel: paths::joined(d.rel, entries[j].name),
            is_dir: entries[j].is_dir,
            depth: (d.depth + 1) as usize,
        };
        lemma_walk_keeps(thumbs, stack.drop_last(), items, it);
        if at + 1 < replies.len() {
            let after = replies[at + 1];
        }
        let k = lemma_comes_up(dir, uuid, states, replies, at + 1, it);
        assert(next_step(dir, uuid, states[k].phase) == step_for(it));
    }
}

proof fn lemma_sibling_comes_up(
    dir: Seq<char>,
    uuid: Seq<char>,
    states: Seq<FetchView>,
    replies: Seq<FetchReply>,
    k: int,
    names: Seq<Seq<char>>,
    i: int,
) -> (at: int)
    requires
        is_run(dir, uuid, states, replies),
        states.last().phase == PhaseView::Finished(Ok(())),
        0 <= k < states.len(),
        states[k].phase == (PhaseView::Siblings { names }),
        0 <= i < names.len(),
    ensures
        k <= at < replies.len(),
        next_step(dir, uuid, states[at].phase) == FetchStepView::Read(dir + "/"@ + names[i]),
    decreases states.len() - k,
{
    assert(k < replies.len());
    let r = replies[k];
    if i == 0 {
        k
    } else {
        if k + 1 < replies.len() {
            let after = replies[k + 1];
        }
        assert(names.skip(1)[i - 1] == names[i]);
        lemma_sibling_comes_up(dir, uuid, states, replies, k + 1, names.skip(1), i - 1)
    }
}

proof fn lemma_siblings_complete(entries: Seq<DirEntryView>, uuid: Seq<char>, j: int)
    requires
        0 <= j < entries.len(),
        is_sibling(entries[j], uuid),
    ensures
        siblings(entries, uuid).contains(entries[j].name),
    decreases entries.len(),
{
    let all = siblings(entries, uuid);
    let rest = siblings(entries.drop_last(), uuid);
    if j == entries.len() - 1 {
        assert(all.last() == entries[j].name);
    } else {
        lemma_siblings_complete(entries.drop_last(), uuid, j);
        let i = choose|i: int| 0 <= i < rest.len() && rest[i] == entries[j].name;
        assert(all[i] == entries[j].name);
    }
}

/// A fetch that ends well has read every file beside the document's directory whose name is the
/// document's with a dot and an ending, but for what an interrupted upload left behind.
pub proof fn every_file_beside_is_fetched(
    dir: Seq<char>,
    uuid: Seq<char>,
    states: Seq<FetchView>,
    replies: Seq<FetchReply>,
    entries: Seq<DirEntryView>,
    j: int,
)
    requires
        is_run(dir, uuid, states, replies),
        states.last().phase == PhaseView::Finished(Ok(())),
        replies.len() > 1,
        replies[1] == FetchReply::Listing(Ok(entries)),
        0 <= j < entries.len(),
        device::is_safe_name(entries[j].name),
        text::has_prefix(entries[j].name, uuid + "."@),
        !entries[j].is_dir,
        !text::has_suffix(entries[j].name, ".rehydrate-tmp"@),
        !text::has_suffix(entries[j].name, ".rehydrate-bak"@),
    ensures
        next_step(dir, uuid, states[1].phase) == FetchStepView::List(dir),
        exists|k: int|
            1 < k < replies.len() && #[trigger] next_step(dir, uuid, states[k].phase)
                == FetchStepView::Read(dir + "/"@ + entries[j].name),
{
    let first = replies[0];
    let second = replies[1];
    assert(states[1].phase is ListRoot);
    lemma_siblings_complete(entries, uuid, j);
    let names = siblings(entries, uuid);
    let i = choose|i: int| 0 <= i < names.len() && names[i] == entries[j].name;
    let k = lemma_sibling_comes_up(dir, uuid, states, replies, 2, names, i);
    assert(next_step(dir, uuid, states[k].phase) == FetchStepView::Read(
        dir + "/"@ + entries[j].name,
    ));
}

/// How far a phase is from the end.
spec fn rank(p: PhaseView) -> int {
    match p {
        PhaseView::Probe => 6,
        PhaseView::ListRoot => 5,
        PhaseView::Siblings { names } => 4,
        PhaseView::ProbeDir { thumbs } => if thumbs {
            1
        } else {
            3
        },
        PhaseView::Walk { thumbs, stack, todo } => if thumbs {
            0
        } else {
            2
        },
        PhaseView::Finished(_) => -1,
    }
}

proof fn lemma_area_comes_up(
    dir: Seq<char>,
    uuid: Seq<char>,
    states: Seq<FetchView>,
    replies: Seq<FetchReply>,
    k: int,
    thumbs: bool,
) -> (at: int)
    requires
        is_run(dir, uuid, states, replies),
        states.last().phase == PhaseView::Finished(Ok(())),
        0 <= k < states.len(),
        rank(states[k].phase) >= rank(PhaseView::ProbeDir { thumbs }),
    ensures
        k <= at < replies.len(),
        states[at].phase == (PhaseView::ProbeDir { thumbs }),
    decreases states.len() - k,
{
    assert(k < replies.len());
    let v = states[k];
    let r = replies[k];
    if v.phase == (PhaseView::ProbeDir { thumbs }) {
        k
    } else {
        if k + 1 < replies.len() {
            let after = replies[k + 1];
        }
        if let PhaseView::Walk { thumbs: t, stack, todo } = v.phase {
            match r {
                FetchReply::Read(_) => {
                    lemma_walk_is_no_probe(t, stack, todo.skip(1));
                },
                FetchReply::Listing(Ok(entries)) => {
                    lemma_walk_is_no_probe(
                        t,
                        stack.drop_last(),
                        items_in(stack.last(), entries),
                    );
                },
                _ => {},
            }
        }
        lemma_area_comes_up(dir, uuid, states, replies, k + 1, thumbs)
    }
}

/// A fetch that ends well has looked for the document's directory and for that of its
/// thumbnails, and has entered each of them that it found.
pub proof fn both_directories_are_looked_for(
    dir: Seq<char>,
    uuid: Seq<char>,
    states: Seq<FetchView>,
    replies: Seq<FetchReply>,
    thumbs: bool,
)
    requires
        is_run(dir, uuid, states, replies),
        states.last().phase == PhaseView::Finished(Ok(())),
    ensures
        ({
            let area = dir + "/"@ + (if thumbs {
                uuid + ".thumbnails"@
            } else {
                uuid
            });
            exists|k: int|
                0 < k < replies.len() && #[trigger] next_step(dir, uuid, states[k].phase)
                    == FetchStepView::List(area) && match replies[k] {
                    FetchReply::Listing(Ok(_)) => exists|l: int|
                        k < l < replies.len() && states[l].phase is Walk && #[trigger] next_step(
                            dir,
                            uuid,
                            states[l].phase,
                        ) == FetchStepView::List(area),
                    FetchReply::Listing(Err(e)) => e is NotFound,
                    _ => false,
                }
        }),
{
    let area = dir + "/"@ + (if thumbs {
        uuid + ".thumbnails"@
    } else {
        uuid
    });
    let k = lemma_area_comes_up(dir, uuid, states, replies, 0, thumbs);
    let r = replies[k];
    if k + 1 < replies.len() {
        let after = replies[k + 1];
    }
    assert(next_step(dir, uuid, states[k].phase) == FetchStepView::List(area));
    if let FetchReply::Listing(Ok(entries)) = r {
        let root = WalkItemView {
            dev: area_path(dir, uuid, thumbs),
            rel: area_name(uuid, thumbs),
            is_dir: true,
            depth: 0,
        };
        if let PhaseView::Walk { thumbs: t, stack, todo } = states[k + 1].phase {
            assert(stack[0] == root);
        }
        let l = lemma_comes_up(dir, uuid, states, replies, k + 1, root);
        assert(next_step(dir, uuid, states[l].phase) == FetchStepView::List(area));
    }
}

/// A directory that lies too deep is refused by name; where none does, the walk goes on.
pub proof fn only_deep_directories_are_refused(
    thumbs: bool,
    stack: Seq<WalkItemView>,
    todo: Seq<WalkItemView>,
)
    ensures
        match walk_on(thumbs, stack, todo) {
            PhaseView::Finished(Err(e)) => exists|i: int|
                0 <= i < todo.len() && (#[trigger] todo[i]).is_dir && todo[i].depth > 16 && e
                    == DeviceErrorView::Other("subtree depth exceeds 16 at "@ + todo[i].dev),
            PhaseView::Walk { thumbs: _, stack: s, todo: l } => l.len() > 0 || forall|i: int|
                0 <= i < todo.len() ==> (#[trigger] todo[i]).is_dir && todo[i].depth <= 16,
            _ => todo.len() == 0 && stack.len() == 0,
        },
    decreases todo.len(),
{
    if todo.len() > 0 && todo[0].is_dir && todo[0].depth <= sftp::MAX_SUBTREE_DEPTH {
        let rest = todo.skip(1);
        only_deep_directories_are_refused(thumbs, stack.push(todo[0]), rest);
        match walk_on(thumbs, stack, todo) {
            PhaseView::Finished(Err(e)) => {
                let i = choose|i: int|
                    0 <= i < rest.len() && (#[trigger] rest[i]).is_dir && rest[i].depth > 16 && e
                        == DeviceErrorView::Other("subtree depth exceeds 16 at "@ + rest[i].dev);
                assert(todo[i + 1] == rest[i]);
            },
            PhaseView::Walk { thumbs: _, stack: s, todo: l } => {
                if l.len() == 0 {
                    assert forall|i: int| 0 <= i < todo.len() implies (#[trigger] todo[i]).is_dir
                        && todo[i].depth <= 16 by {
                        if i > 0 {
                            assert(rest[i - 1] == todo[i]);
                        }
                    }
                }
            },
            _ => {},
        }
    }
}

} // verus!
