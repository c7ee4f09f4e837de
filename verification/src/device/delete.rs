//! Deleting a document from the tablet: the files beside its directory, what lies in its
//! directories, and the directories.

use vstd::prelude::*;

use crate::device;
use crate::device::DeviceError;
use crate::device::DeviceErrorView;
use crate::device::DirEntry;
use crate::device::DirEntryView;
use crate::text;

verus! {

/// A step for the caller to take.
#[derive(Debug)]
pub enum DeleteStep {
    /// List the document directory.
    ListRoot,
    /// List a directory of the document.
    ListDir(String),
    /// Remove a file.
    RemoveFile(String),
    /// Remove a directory.
    RemoveDir(String),
}

/// The model of a [`DeleteStep`].
pub enum DeleteStepView {
    ListRoot,
    ListDir(Seq<char>),
    RemoveFile(Seq<char>),
    RemoveDir(Seq<char>),
}

impl DeepView for DeleteStep {
    type V = DeleteStepView;

    open spec fn deep_view(&self) -> DeleteStepView {
        match *self {
            DeleteStep::ListRoot => DeleteStepView::ListRoot,
            DeleteStep::ListDir(p) => DeleteStepView::ListDir(p@),
            DeleteStep::RemoveFile(p) => DeleteStepView::RemoveFile(p@),
            DeleteStep::RemoveDir(p) => DeleteStepView::RemoveDir(p@),
        }
    }
}

/// Whether an entry of the document directory is part of the document.
pub open spec fn is_part(e: DirEntryView, uuid: Seq<char>) -> bool {
    device::is_safe_name(e.name) && device::belongs_to(e.name, uuid)
}

/// The steps for those parts of a document that are directories, or for those that are not.
pub open spec fn part_steps(
    dir: Seq<char>,
    uuid: Seq<char>,
    entries: Seq<DirEntryView>,
    dirs: bool,
) -> Seq<DeleteStepView>
    decreases entries.len(),
{
    if entries.len() == 0 {
        seq![]
    } else {
        let rest = part_steps(dir, uuid, entries.drop_last(), dirs);
        let e = entries.last();
        let path = device::child_path(dir, e.name);
        if is_part(e, uuid) && e.is_dir == dirs {
            rest.push(
                if dirs {
                    DeleteStepView::ListDir(path)
                } else {
                    DeleteStepView::RemoveFile(path)
                },
            )
        } else {
            rest
        }
    }
}

/// The steps for what lies in a directory of the document.
pub open spec fn content_steps(dir: Seq<char>, entries: Seq<DirEntryView>) -> Seq<DeleteStepView>
    decreases entries.len(),
{
    if entries.len() == 0 {
        seq![]
    } else {
        let rest = content_steps(dir, entries.drop_last());
        let name = entries.last().name;
        if device::is_safe_name(name) {
            rest.push(DeleteStepView::RemoveFile(device::child_path(dir, name)))
        } else {
            rest
        }
    }
}

/// The model of a [`Deletion`]: what is left to do, and the first error that counts.
pub struct DeletionView {
    pub todo: Seq<DeleteStepView>,
    pub first_err: Option<DeviceErrorView>,
}

/// What follows on a listing.
pub open spec fn after_listing(
    dir: Seq<char>,
    uuid: Seq<char>,
    v: DeletionView,
    r: Result<Seq<DirEntryView>, DeviceErrorView>,
) -> DeletionView {
    let rest = v.todo.skip(1);
    match v.todo[0] {
        DeleteStepView::ListDir(path) => {
            let last = seq![DeleteStepView::RemoveDir(path)];
            match r {
                Ok(entries) => DeletionView {
                    todo: content_steps(path, entries) + last + rest,
                    first_err: v.first_err,
                },
                Err(e) => DeletionView {
                    todo: last + rest,
                    first_err: device::noted(v.first_err, e),
                },
            }
        },
        _ => match r {
            Ok(entries) => DeletionView {
                todo: part_steps(dir, uuid, entries, false) + part_steps(dir, uuid, entries, true),
                first_err: v.first_err,
            },
            Err(e) => DeletionView { todo: seq![], first_err: Some(e) },
        },
    }
}

/// What follows on a removal. That there was nothing to remove is no failure; after any other
/// the rest is still tried.
pub open spec fn after_removal(v: DeletionView, r: Result<(), DeviceErrorView>) -> DeletionView {
    DeletionView {
        todo: v.todo.skip(1),
        first_err: match r {
            Ok(_) => v.first_err,
            Err(e) => device::noted(v.first_err, e),
        },
    }
}

/// The work of deleting one document.
pub struct Deletion {
    dir: String,
    uuid: String,
    todo: Vec<DeleteStep>,
    first_err: Option<DeviceError>,
}

impl Deletion {
    /// The document directory.
    pub closed spec fn dir(&self) -> Seq<char> {
        self.dir@
    }

    /// The document.
    pub closed spec fn uuid(&self) -> Seq<char> {
        self.uuid@
    }

    /// How far the work has come.
    pub closed spec fn view(&self) -> DeletionView {
        DeletionView { todo: self.todo.deep_view(), first_err: self.first_err.deep_view() }
    }

    /// Starts on a document.
    pub fn new(dir: &str, uuid: &str) -> (d: Self)
        ensures
            d.dir() == dir@,
            d.uuid() == uuid@,
            d@ == (DeletionView { todo: seq![DeleteStepView::ListRoot], first_err: None }),
    {
        let mut todo: Vec<DeleteStep> = Vec::new();
        todo.push(DeleteStep::ListRoot);
        assert(todo.deep_view() =~= seq![DeleteStepView::ListRoot]);
        Deletion { dir: dir.to_owned(), uuid: uuid.to_owned(), todo, first_err: None }
    }

    /// The step that comes next; `None` when nothing is left to do.
    pub fn step(&self) -> (s: Option<&DeleteStep>)
        ensures
            match s {
                Some(x) => self@.todo.len() > 0 && x.deep_view() == self@.todo[0],
                None => self@.todo.len() == 0,
            },
    {
        if self.todo.len() == 0 {
            None
        } else {
            Some(&self.todo[0])
        }
    }

    /// Takes in a listing.
    pub fn listed(&mut self, r: Result<Vec<DirEntry>, DeviceError>)
        requires
            old(self)@.todo.len() > 0,
            old(self)@.todo[0] is ListRoot || old(self)@.todo[0] is ListDir,
        ensures
            final(self).dir() == old(self).dir(),
            final(self).uuid() == old(self).uuid(),
            final(self)@ == after_listing(
                old(self).dir(),
                old(self).uuid(),
                old(self)@,
                device::device_outcome(r),
            ),
    {
        let ghost before = self.todo.deep_view();
        let step = self.todo.remove(0);
        assert(self.todo.deep_view() =~= before.skip(1));
        assert(step.deep_view() == before[0]);
        match step {
            DeleteStep::ListDir(path) => {
                let mut todo = match r {
                    Ok(entries) => plan_contents(path.as_str(), &entries),
                    Err(e) => {
                        device::note(&mut self.first_err, e);
                        Vec::new()
                    },
                };
                let ghost contents = todo.deep_view();
                let ghost p = path@;
                todo.push(DeleteStep::RemoveDir(path));
                assert(todo.deep_view() =~= contents + seq![DeleteStepView::RemoveDir(p)]);
                let ghost head = todo.deep_view();
                todo.append(&mut self.todo);
                assert(todo.deep_view() =~= head + before.skip(1));
                self.todo = todo;
                assert(seq![] + seq![DeleteStepView::RemoveDir(p)] =~= seq![
                    DeleteStepView::RemoveDir(p),
                ]);
            },
            _ => match r {
                Ok(entries) => {
                    let mut todo = plan_parts(
                        self.dir.as_str(),
                        self.uuid.as_str(),
                        &entries,
                        false,
                    );
                    let mut dirs = plan_parts(self.dir.as_str(), self.uuid.as_str(), &entries, true);
                    let ghost a = todo.deep_view();
                    let ghost b = dirs.deep_view();
                    todo.append(&mut dirs);
                    assert(todo.deep_view() =~= a + b);
                    self.todo = todo;
                },
                Err(e) => {
                    self.todo = Vec::new();
                    self.first_err = Some(e);
                    assert(self.todo.deep_view() =~= seq![]);
                },
            },
        }
    }

    /// Takes in what came of a removal.
    pub fn removed(&mut self, r: Result<(), DeviceError>)
        requires
            old(self)@.todo.len() > 0,
            old(self)@.todo[0] is RemoveFile || old(self)@.todo[0] is RemoveDir,
        ensures
            final(self).dir() == old(self).dir(),
            final(self).uuid() == old(self).uuid(),
            final(self)@ == after_removal(old(self)@, device::unit_outcome(r)),
    {
        let ghost before = self.todo.deep_view();
        self.todo.remove(0);
        assert(self.todo.deep_view() =~= before.skip(1));
        if let Err(e) = r {
            device::note(&mut self.first_err, e);
        }
    }

    /// What came of the work.
    pub fn finish(self) -> (r: Result<(), DeviceError>)
        requires
            self@.todo.len() == 0,
        ensures
            match self@.first_err {
                Some(e) => device::unit_outcome(r) == Err::<(), DeviceErrorView>(e),
                None => r is Ok,
            },
    {
        match self.first_err {
            Some(e) => Err(e),
            None => Ok(()),
        }
    }
}

fn plan_parts(dir: &str, uuid: &str, entries: &Vec<DirEntry>, dirs: bool) -> (todo: Vec<DeleteStep>)
    ensures
        todo.deep_view() == part_steps(dir@, uuid@, entries.deep_view(), dirs),
{
    let ghost all = entries.deep_view();
    let mut todo: Vec<DeleteStep> = Vec::new();
    let mut i: usize = 0;
    proof {
        assert(all.take(0) =~= seq![]);
        assert(todo.deep_view() =~= seq![]);
    }
    while i < entries.len()
        invariant
            all == entries.deep_view(),
            i <= entries.len(),
            todo.deep_view() == part_steps(dir@, uuid@, all.take(i as int), dirs),
        decreases entries.len() - i,
    {
        proof {
            assert(all.take(i + 1).drop_last() =~= all.take(i as int));
            assert(all.take(i + 1).last() == entries[i as int].deep_view());
        }
        let e = &entries[i];
        if device::is_safe_entry_name(e.name.as_str()) && device::name_belongs_to(
            e.name.as_str(),
            uuid,
        ) && e.is_dir == dirs {
            let ghost before = todo.deep_view();
            let path = device::child(dir, e.name.as_str());
            let step = if dirs {
                DeleteStep::ListDir(path)
            } else {
                DeleteStep::RemoveFile(path)
            };
            todo.push(step);
            assert(todo.deep_view() =~= before.push(step.deep_view()));
        }
        i = i + 1;
    }
    assert(all.take(all.len() as int) =~= all);
    todo
}

fn plan_contents(dir: &str, entries: &Vec<DirEntry>) -> (todo: Vec<DeleteStep>)
    ensures
        todo.deep_view() == content_steps(dir@, entries.deep_view()),
{
    let ghost all = entries.deep_view();
    let mut todo: Vec<DeleteStep> = Vec::new();
    let mut i: usize = 0;
    proof {
        assert(all.take(0) =~= seq![]);
        assert(todo.deep_view() =~= seq![]);
    }
    while i < entries.len()
        invariant
            all == entries.deep_view(),
            i <= entries.len(),
            todo.deep_view() == content_steps(dir@, all.take(i as int)),
        decreases entries.len() - i,
    {
        proof {
            assert(all.take(i + 1).drop_last() =~= all.take(i as int));
            assert(all.take(i + 1).last() == entries[i as int].deep_view());
        }
        if device::is_safe_entry_name(entries[i].name.as_str()) {
            let ghost before = todo.deep_view();
            let path = device::child(dir, entries[i].name.as_str());
            let step = DeleteStep::RemoveFile(path);
            todo.push(step);
            assert(todo.deep_view() =~= before.push(step.deep_view()));
        }
        i = i + 1;
    }
    assert(all.take(all.len() as int) =~= all);
    todo
}

/// Whether a path is a part of a document.
pub open spec fn is_part_path(dir: Seq<char>, uuid: Seq<char>, path: Seq<char>) -> bool {
    exists|name: Seq<char>|
        device::is_safe_name(name) && device::belongs_to(name, uuid) && path
            == #[trigger] device::child_path(dir, name)
}

/// Whether a path lies directly in a part of a document.
pub open spec fn lies_in_part(dir: Seq<char>, uuid: Seq<char>, path: Seq<char>) -> bool {
    exists|part: Seq<char>, name: Seq<char>|
        is_part_path(dir, uuid, part) && device::is_safe_name(name) && path
            == #[trigger] device::child_path(part, name)
}

/// Whether a step touches nothing but the document.
pub open spec fn stays_inside(dir: Seq<char>, uuid: Seq<char>, step: DeleteStepView) -> bool {
    match step {
        DeleteStepView::ListRoot => true,
        DeleteStepView::ListDir(p) => is_part_path(dir, uuid, p),
        DeleteStepView::RemoveFile(p) => is_part_path(dir, uuid, p) || lies_in_part(dir, uuid, p),
        DeleteStepView::RemoveDir(p) => is_part_path(dir, uuid, p),
    }
}

/// Whether all that is left to do touches nothing but the document.
pub open spec fn all_inside(dir: Seq<char>, uuid: Seq<char>, todo: Seq<DeleteStepView>) -> bool {
    forall|i: int| 0 <= i < todo.len() ==> stays_inside(dir, uuid, #[trigger] todo[i])
}

proof fn lemma_parts_inside(
    dir: Seq<char>,
    uuid: Seq<char>,
    entries: Seq<DirEntryView>,
    dirs: bool,
)
    ensures
        all_inside(dir, uuid, part_steps(dir, uuid, entries, dirs)),
    decreases entries.len(),
{
    if entries.len() > 0 {
        lemma_parts_inside(dir, uuid, entries.drop_last(), dirs);
    }
}

proof fn lemma_contents_inside(
    dir: Seq<char>,
    uuid: Seq<char>,
    part: Seq<char>,
    entries: Seq<DirEntryView>,
)
    requires
        is_part_path(dir, uuid, part),
    ensures
        all_inside(dir, uuid, content_steps(part, entries)),
    decreases entries.len(),
{
    if entries.len() > 0 {
        lemma_contents_inside(dir, uuid, part, entries.drop_last());
    }
}

/// Whatever names the tablet sends, a listing leads to no step outside the document.
pub proof fn listing_stays_inside(
    dir: Seq<char>,
    uuid: Seq<char>,
    v: DeletionView,
    r: Result<Seq<DirEntryView>, DeviceErrorView>,
)
    requires
        v.todo.len() > 0,
        v.todo[0] is ListRoot || v.todo[0] is ListDir,
        all_inside(dir, uuid, v.todo),
    ensures
        all_inside(dir, uuid, after_listing(dir, uuid, v, r).todo),
{
    assert(stays_inside(dir, uuid, v.todo[0]));
    let after = after_listing(dir, uuid, v, r).todo;
    if let Ok(entries) = r {
        lemma_parts_inside(dir, uuid, entries, false);
        lemma_parts_inside(dir, uuid, entries, true);
        if let DeleteStepView::ListDir(path) = v.todo[0] {
            lemma_contents_inside(dir, uuid, path, entries);
        }
    }
    assert(forall|i: int| 1 <= i < v.todo.len() ==> stays_inside(dir, uuid, #[trigger] v.todo[i]));
    assert forall|i: int| 0 <= i < after.len() implies stays_inside(dir, uuid, #[trigger] after[i]) by {
        match v.todo[0] {
            DeleteStepView::ListDir(path) => {
                let contents = match r {
                    Ok(entries) => content_steps(path, entries),
                    Err(_) => seq![],
                };
                if i < contents.len() {
                    assert(after[i] == contents[i]);
                } else if i > contents.len() {
                    assert(after[i] == v.todo[i - contents.len()]);
                }
            },
            _ => {
                if let Ok(entries) = r {
                    let files = part_steps(dir, uuid, entries, false);
                    let dirs = part_steps(dir, uuid, entries, true);
                    if i < files.len() {
                        assert(after[i] == files[i]);
                    } else {
                        assert(after[i] == dirs[i - files.len()]);
                    }
                }
            },
        }
    }
}

/// A removal leads to no step outside the document.
pub proof fn removal_stays_inside(
    dir: Seq<char>,
    uuid: Seq<char>,
    v: DeletionView,
    r: Result<(), DeviceErrorView>,
)
    requires
        v.todo.len() > 0,
        all_inside(dir, uuid, v.todo),
    ensures
        all_inside(dir, uuid, after_removal(v, r).todo),
{
    let after = after_removal(v, r).todo;
    assert forall|i: int| 0 <= i < after.len() implies stays_inside(dir, uuid, #[trigger] after[i]) by {
        assert(after[i] == v.todo[i + 1]);
    }
}

/// A removal that fails is never forgotten: the work then ends in an error.
pub proof fn failure_is_reported(v: DeletionView, e: DeviceErrorView)
    requires
        !(e is NotFound),
    ensures
        after_removal(v, Err(e)).first_err is Some,
        v.first_err is Some ==> after_removal(v, Err(e)).first_err == v.first_err,
{
}

proof fn lemma_contents_complete(path: Seq<char>, entries: Seq<DirEntryView>, j: int)
    requires
        0 <= j < entries.len(),
        device::is_safe_name(entries[j].name),
    ensures
        content_steps(path, entries).contains(
            DeleteStepView::RemoveFile(path + "/"@ + entries[j].name),
        ),
    decreases entries.len(),
{
    let all = content_steps(path, entries);
    let rest = content_steps(path, entries.drop_last());
    if j == entries.len() - 1 {
        assert(all.last() == DeleteStepView::RemoveFile(path + "/"@ + entries[j].name));
    } else {
        lemma_contents_complete(path, entries.drop_last(), j);
        let step = DeleteStepView::RemoveFile(path + "/"@ + entries[j].name);
        assert(rest.contains(step));
        let i = choose|i: int| 0 <= i < rest.len() && rest[i] == step;
        assert(all[i] == step);
    }
}

proof fn lemma_contents_sound(path: Seq<char>, entries: Seq<DirEntryView>, i: int)
    requires
        0 <= i < content_steps(path, entries).len(),
    ensures
        exists|j: int|
            0 <= j < entries.len() && device::is_safe_name((#[trigger] entries[j]).name)
                && content_steps(path, entries)[i] == DeleteStepView::RemoveFile(
                path + "/"@ + entries[j].name,
            ),
        content_steps(path, entries).len() <= entries.len(),
    decreases entries.len(),
{
    if entries.len() > 0 {
        let shorter = entries.drop_last();
        let rest = content_steps(path, shorter);
        if i < rest.len() {
            lemma_contents_sound(path, shorter, i);
            let j = choose|j: int|
                0 <= j < shorter.len() && device::is_safe_name((#[trigger] shorter[j]).name)
                    && rest[i] == DeleteStepView::RemoveFile(path + "/"@ + shorter[j].name);
            assert(entries[j] == shorter[j]);
        } else {
            if rest.len() > 0 {
                lemma_contents_sound(path, shorter, 0);
            }
            assert(entries[entries.len() - 1] == entries.last());
        }
    }
}

/// After the listing of a directory of the document, every entry of it that bears the name of
/// one entry is removed, and nothing else, before the directory is removed; what was left to do
/// besides is left to do still.
pub proof fn directory_is_emptied_before_it_goes(
    dir: Seq<char>,
    uuid: Seq<char>,
    v: DeletionView,
    path: Seq<char>,
    entries: Seq<DirEntryView>,
)
    requires
        v.todo.len() > 0,
        v.todo[0] == DeleteStepView::ListDir(path),
    ensures
        ({
            let after = after_listing(dir, uuid, v, Ok(entries));
            let m = after.todo.len() - v.todo.len();
            &&& 0 <= m <= entries.len()
            &&& forall|j: int|
                0 <= j < entries.len() && device::is_safe_name((#[trigger] entries[j]).name)
                    ==> after.todo.take(m).contains(
                    DeleteStepView::RemoveFile(path + "/"@ + entries[j].name),
                )
            &&& forall|i: int|
                0 <= i < m ==> exists|j: int|
                    0 <= j < entries.len() && device::is_safe_name((#[trigger] entries[j]).name)
                        && #[trigger] after.todo[i] == DeleteStepView::RemoveFile(
                        path + "/"@ + entries[j].name,
                    )
            &&& after.todo[m] == DeleteStepView::RemoveDir(path)
            &&& after.todo.skip(m + 1) == v.todo.skip(1)
            &&& after.first_err == v.first_err
        }),
{
    let after = after_listing(dir, uuid, v, Ok(entries));
    let contents = content_steps(path, entries);
    let m = after.todo.len() - v.todo.len();
    assert(m == contents.len());
    assert(after.todo.take(m) =~= contents);
    assert(after.todo.skip(m + 1) =~= v.todo.skip(1));
    if m > 0 {
        lemma_contents_sound(path, entries, 0);
    }
    assert forall|j: int|
        0 <= j < entries.len() && device::is_safe_name(
            (#[trigger] entries[j]).name,
        ) implies after.todo.take(m).contains(
        DeleteStepView::RemoveFile(path + "/"@ + entries[j].name),
    ) by {
        lemma_contents_complete(path, entries, j);
    }
    assert forall|i: int| 0 <= i < m implies exists|j: int|
        0 <= j < entries.len() && device::is_safe_name((#[trigger] entries[j]).name)
            && #[trigger] after.todo[i] == DeleteStepView::RemoveFile(
            path + "/"@ + entries[j].name,
        ) by {
        lemma_contents_sound(path, entries, i);
        assert(after.todo[i] == contents[i]);
    }
}

/// A directory of the document that cannot be listed is removed all the same, and the first
/// error is kept, unless there was no such directory.
pub proof fn unlisted_directory_still_goes(
    dir: Seq<char>,
    uuid: Seq<char>,
    v: DeletionView,
    path: Seq<char>,
    e: DeviceErrorView,
)
    requires
        v.todo.len() > 0,
        v.todo[0] == DeleteStepView::ListDir(path),
    ensures
        ({
            let after = after_listing(dir, uuid, v, Err(e));
            &&& after.todo.len() == v.todo.len()
            &&& after.todo[0] == DeleteStepView::RemoveDir(path)
            &&& after.todo.skip(1) == v.todo.skip(1)
            &&& v.first_err is Some || e is NotFound ==> after.first_err == v.first_err
            &&& v.first_err is None && !(e is NotFound) ==> after.first_err == Some(e)
        }),
{
    let after = after_listing(dir, uuid, v, Err(e));
    assert(after.todo.skip(1) =~= v.todo.skip(1));
}

proof fn lemma_parts_complete(
    dir: Seq<char>,
    uuid: Seq<char>,
    entries: Seq<DirEntryView>,
    dirs: bool,
    j: int,
)
    requires
        0 <= j < entries.len(),
        is_part(entries[j], uuid),
        entries[j].is_dir == dirs,
    ensures
        part_steps(dir, uuid, entries, dirs).contains(
            if dirs {
                DeleteStepView::ListDir(dir + "/"@ + entries[j].name)
            } else {
                DeleteStepView::RemoveFile(dir + "/"@ + entries[j].name)
            },
        ),
    decreases entries.len(),
{
    let all = part_steps(dir, uuid, entries, dirs);
    let rest = part_steps(dir, uuid, entries.drop_last(), dirs);
    let step = if dirs {
        DeleteStepView::ListDir(dir + "/"@ + entries[j].name)
    } else {
        DeleteStepView::RemoveFile(dir + "/"@ + entries[j].name)
    };
    if j == entries.len() - 1 {
        assert(all.last() == step);
    } else {
        lemma_parts_complete(dir, uuid, entries.drop_last(), dirs, j);
        let i = choose|i: int| 0 <= i < rest.len() && rest[i] == step;
        assert(all[i] == step);
    }
}

proof fn lemma_parts_kind(
    dir: Seq<char>,
    uuid: Seq<char>,
    entries: Seq<DirEntryView>,
    dirs: bool,
)
    ensures
        forall|i: int|
            0 <= i < part_steps(dir, uuid, entries, dirs).len() ==> (if dirs {
                #[trigger] part_steps(dir, uuid, entries, dirs)[i] is ListDir
            } else {
                part_steps(dir, uuid, entries, dirs)[i] is RemoveFile
            }),
    decreases entries.len(),
{
    if entries.len() > 0 {
        lemma_parts_kind(dir, uuid, entries.drop_last(), dirs);
    }
}

/// After the listing of the document directory, every part of the document has its step: a file
/// whose name is the document's, or begins with it and a dot, is removed, and a directory of
/// such a name is listed, so that it can be emptied. The files come first, and nothing else
/// is planned than removing files and listing directories.
pub proof fn every_part_has_its_step(
    dir: Seq<char>,
    uuid: Seq<char>,
    v: DeletionView,
    entries: Seq<DirEntryView>,
    j: int,
)
    requires
        v.todo.len() > 0,
        v.todo[0] is ListRoot,
        0 <= j < entries.len(),
        device::is_safe_name(entries[j].name),
        entries[j].name == uuid || text::has_prefix(entries[j].name, uuid + "."@),
    ensures
        ({
            let after = after_listing(dir, uuid, v, Ok(entries));
            &&& entries[j].is_dir ==> after.todo.contains(
                DeleteStepView::ListDir(dir + "/"@ + entries[j].name),
            )
            &&& !entries[j].is_dir ==> after.todo.contains(
                DeleteStepView::RemoveFile(dir + "/"@ + entries[j].name),
            )
            &&& forall|i: int|
                0 <= i < after.todo.len() ==> (#[trigger] after.todo[i] is RemoveFile
                    || after.todo[i] is ListDir)
            &&& forall|a: int, b: int|
                0 <= a < b < after.todo.len() && #[trigger] after.todo[a] is ListDir
                    ==> #[trigger] after.todo[b] is ListDir
            &&& after.first_err == v.first_err
        }),
{
    let after = after_listing(dir, uuid, v, Ok(entries)).todo;
    let files = part_steps(dir, uuid, entries, false);
    let dirs = part_steps(dir, uuid, entries, true);
    lemma_parts_kind(dir, uuid, entries, false);
    lemma_parts_kind(dir, uuid, entries, true);
    lemma_parts_complete(dir, uuid, entries, entries[j].is_dir, j);
    assert forall|i: int| 0 <= i < after.len() implies #[trigger] after[i] == (if i < files.len() {
        files[i]
    } else {
        dirs[i - files.len()]
    }) by {}
    if entries[j].is_dir {
        let step = DeleteStepView::ListDir(dir + "/"@ + entries[j].name);
        let i = choose|i: int| 0 <= i < dirs.len() && dirs[i] == step;
        assert(after[files.len() + i] == step);
    } else {
        let step = DeleteStepView::RemoveFile(dir + "/"@ + entries[j].name);
        let i = choose|i: int| 0 <= i < files.len() && files[i] == step;
        assert(after[i] == step);
    }
}

/// What came of a step: a listing, or a removal.
pub enum DeleteReply {
    Listing(Result<Seq<DirEntryView>, DeviceErrorView>),
    Removal(Result<(), DeviceErrorView>),
}

impl DeleteReply {
    /// The error of the step, if it failed.
    pub open spec fn error(self) -> Option<DeviceErrorView> {
        match self {
            DeleteReply::Listing(Err(e)) => Some(e),
            DeleteReply::Removal(Err(e)) => Some(e),
            _ => None,
        }
    }
}

/// Whether a deletion goes through the given states, from the first one on, when its steps come
/// out as given.
pub open spec fn is_run(
    dir: Seq<char>,
    uuid: Seq<char>,
    states: Seq<DeletionView>,
    replies: Seq<DeleteReply>,
) -> bool {
    &&& states.len() == replies.len() + 1
    &&& states[0].todo == seq![DeleteStepView::ListRoot]
    &&& states[0].first_err is None
    &&& forall|k: int|
        0 <= k < replies.len() ==> {
            &&& states[k].todo.len() > 0
            &&& match #[trigger] replies[k] {
                DeleteReply::Listing(r) => (states[k].todo[0] is ListRoot
                    || states[k].todo[0] is ListDir) && states[k + 1] == after_listing(
                    dir,
                    uuid,
                    states[k],
                    r,
                ),
                DeleteReply::Removal(r) => (states[k].todo[0] is RemoveFile
                    || states[k].todo[0] is RemoveDir) && states[k + 1] == after_removal(
                    states[k],
                    r,
                ),
            }
        }
}

/// Past the first step the document directory is not listed again.
proof fn lemma_one_root(
    dir: Seq<char>,
    uuid: Seq<char>,
    states: Seq<DeletionView>,
    replies: Seq<DeleteReply>,
    k: int,
)
    requires
        is_run(dir, uuid, states, replies),
        1 <= k < states.len(),
    ensures
        forall|i: int| 0 <= i < states[k].todo.len() ==> !(#[trigger] states[k].todo[i] is ListRoot),
    decreases k,
{
    let before = states[k - 1];
    let r = replies[k - 1];
    let todo = states[k].todo;
    if k == 1 {
        if let DeleteReply::Listing(Ok(entries)) = r {
            lemma_parts_kind(dir, uuid, entries, false);
            lemma_parts_kind(dir, uuid, entries, true);
            let files = part_steps(dir, uuid, entries, false);
            let dirs = part_steps(dir, uuid, entries, true);
            assert forall|i: int| 0 <= i < todo.len() implies !(#[trigger] todo[i] is ListRoot) by {
                if i < files.len() {
                    assert(todo[i] == files[i]);
                } else {
                    assert(todo[i] == dirs[i - files.len()]);
                }
            }
        }
    } else {
        lemma_one_root(dir, uuid, states, replies, k - 1);
        match r {
            DeleteReply::Listing(Ok(entries)) => {
                let path = before.todo[0]->ListDir_0;
                directory_is_emptied_before_it_goes(dir, uuid, before, path, entries);
                let m = todo.len() - before.todo.len();
                assert forall|i: int| 0 <= i < todo.len() implies !(#[trigger] todo[i]
                    is ListRoot) by {
                    if i > m {
                        assert(todo.skip(m + 1)[i - m - 1] == todo[i]);
                        assert(before.todo.skip(1)[i - m - 1] == before.todo[i - m]);
                    }
                }
            },
            DeleteReply::Listing(Err(e)) => {
                let path = before.todo[0]->ListDir_0;
                unlisted_directory_still_goes(dir, uuid, before, path, e);
                assert forall|i: int| 0 <= i < todo.len() implies !(#[trigger] todo[i]
                    is ListRoot) by {
                    if i > 0 {
                        assert(todo.skip(1)[i - 1] == todo[i]);
                        assert(before.todo.skip(1)[i - 1] == before.todo[i]);
                    }
                }
            },
            DeleteReply::Removal(_) => {
                assert forall|i: int| 0 <= i < todo.len() implies !(#[trigger] todo[i]
                    is ListRoot) by {
                    assert(todo[i] == before.todo[i + 1]);
                }
            },
        }
    }
}

/// What is left to do comes to be done, if the work comes to its end.
proof fn lemma_comes_up(
    dir: Seq<char>,
    uuid: Seq<char>,
    states: Seq<DeletionView>,
    replies: Seq<DeleteReply>,
    k: int,
    i: int,
) -> (at: int)
    requires
        is_run(dir, uuid, states, replies),
        states.last().todo.len() == 0,
        1 <= k < states.len(),
        0 <= i < states[k].todo.len(),
    ensures
        k <= at < replies.len(),
        states[at].todo[0] == states[k].todo[i],
    decreases states.len() - k,
{
    assert(k < replies.len());
    if i == 0 {
        k
    } else {
        let todo = states[k].todo;
        let next = states[k + 1].todo;
        let r = replies[k];
        lemma_one_root(dir, uuid, states, replies, k);
        let to = match r {
            DeleteReply::Listing(Ok(entries)) => {
                let path = todo[0]->ListDir_0;
                directory_is_emptied_before_it_goes(dir, uuid, states[k], path, entries);
                let m = next.len() - todo.len();
                assert(next.skip(m + 1)[i - 1] == next[m + i]);
                assert(todo.skip(1)[i - 1] == todo[i]);
                m + i
            },
            DeleteReply::Listing(Err(e)) => {
                let path = todo[0]->ListDir_0;
                unlisted_directory_still_goes(dir, uuid, states[k], path, e);
                assert(next.skip(1)[i - 1] == next[i]);
                assert(todo.skip(1)[i - 1] == todo[i]);
                i
            },
            DeleteReply::Removal(_) => {
                assert(next[i - 1] == todo[i]);
                i - 1
            },
        };
        lemma_comes_up(dir, uuid, states, replies, k + 1, to)
    }
}

/// A deletion that has come to its end has taken a removal for every file of the document
/// beside its directories, has listed every directory of the document, and has removed every
/// directory that it listed.
pub proof fn whole_document_goes(
    dir: Seq<char>,
    uuid: Seq<char>,
    states: Seq<DeletionView>,
    replies: Seq<DeleteReply>,
    entries: Seq<DirEntryView>,
    j: int,
)
    requires
        is_run(dir, uuid, states, replies),
        states.last().todo.len() == 0,
        replies.len() > 0,
        replies[0] == DeleteReply::Listing(Ok(entries)),
        0 <= j < entries.len(),
        device::is_safe_name(entries[j].name),
        entries[j].name == uuid || text::has_prefix(entries[j].name, uuid + "."@),
    ensures
        !entries[j].is_dir ==> exists|k: int|
            0 < k < replies.len() && #[trigger] states[k].todo[0] == DeleteStepView::RemoveFile(
                dir + "/"@ + entries[j].name,
            ),
        entries[j].is_dir ==> exists|k: int, l: int|
            0 < k < l < replies.len() && #[trigger] states[k].todo[0] == DeleteStepView::ListDir(
                dir + "/"@ + entries[j].name,
            ) && #[trigger] states[l].todo[0] == DeleteStepView::RemoveDir(
                dir + "/"@ + entries[j].name,
            ),
{
    let first = replies[0];
    assert(states[0].todo[0] is ListRoot);
    every_part_has_its_step(dir, uuid, states[0], entries, j);
    let path = dir + "/"@ + entries[j].name;
    let todo = states[1].todo;
    if entries[j].is_dir {
        let step = DeleteStepView::ListDir(path);
        let i = choose|i: int| 0 <= i < todo.len() && todo[i] == step;
        let k = lemma_comes_up(dir, uuid, states, replies, 1, i);
        let r = replies[k];
        let m = match r->Listing_0 {
            Ok(inner) => {
                directory_is_emptied_before_it_goes(dir, uuid, states[k], path, inner);
                states[k + 1].todo.len() - states[k].todo.len()
            },
            Err(e) => {
                unlisted_directory_still_goes(dir, uuid, states[k], path, e);
                0
            },
        };
        assert(states[k + 1].todo[m] == DeleteStepView::RemoveDir(path));
        let l = lemma_comes_up(dir, uuid, states, replies, k + 1, m);
        assert(states[l].todo[0] == DeleteStepView::RemoveDir(path));
    } else {
        let step = DeleteStepView::RemoveFile(path);
        let i = choose|i: int| 0 <= i < todo.len() && todo[i] == step;
        let k = lemma_comes_up(dir, uuid, states, replies, 1, i);
        assert(states[k].todo[0] == step);
    }
}

/// A deletion that has come to its end has taken a removal for everything that a listing of a
/// directory of the document has shown under the name of one entry.
pub proof fn whole_directory_goes(
    dir: Seq<char>,
    uuid: Seq<char>,
    states: Seq<DeletionView>,
    replies: Seq<DeleteReply>,
    at: int,
    path: Seq<char>,
    entries: Seq<DirEntryView>,
    j: int,
)
    requires
        is_run(dir, uuid, states, replies),
        states.last().todo.len() == 0,
        0 <= at < replies.len(),
        states[at].todo[0] == DeleteStepView::ListDir(path),
        replies[at] == DeleteReply::Listing(Ok(entries)),
        0 <= j < entries.len(),
        device::is_safe_name(entries[j].name),
    ensures
        exists|k: int|
            at < k < replies.len() && #[trigger] states[k].todo[0] == DeleteStepView::RemoveFile(
                path + "/"@ + entries[j].name,
            ),
{
    let r = replies[at];
    directory_is_emptied_before_it_goes(dir, uuid, states[at], path, entries);
    let todo = states[at + 1].todo;
    let m = todo.len() - states[at].todo.len();
    let step = DeleteStepView::RemoveFile(path + "/"@ + entries[j].name);
    assert(todo.take(m).contains(step));
    let i = choose|i: int| 0 <= i < m && todo.take(m)[i] == step;
    assert(todo[i] == step);
    let k = lemma_comes_up(dir, uuid, states, replies, at + 1, i);
    assert(states[k].todo[0] == step);
}

/// Whether a step has gone wrong: the document directory could not be listed, or another step
/// failed other than because there was nothing to work on.
pub open spec fn went_wrong(k: int, r: DeleteReply) -> bool {
    r.error() matches Some(e) && (k == 0 || !(e is NotFound))
}

/// A deletion reports the error of the first step that has gone wrong, and none where none has.
pub proof fn first_failure_is_reported(
    dir: Seq<char>,
    uuid: Seq<char>,
    states: Seq<DeletionView>,
    replies: Seq<DeleteReply>,
    k: int,
)
    requires
        is_run(dir, uuid, states, replies),
        0 <= k <= replies.len(),
    ensures
        match states[k].first_err {
            Some(e) => exists|b: int|
                0 <= b < k && #[trigger] went_wrong(b, replies[b]) && replies[b].error() == Some(e)
                    && forall|j: int| 0 <= j < b ==> !#[trigger] went_wrong(j, replies[j]),
            None => forall|j: int| 0 <= j < k ==> !#[trigger] went_wrong(j, replies[j]),
        },
    decreases k,
{
    if k > 0 {
        first_failure_is_reported(dir, uuid, states, replies, k - 1);
        let r = replies[k - 1];
        if k > 1 {
            lemma_one_root(dir, uuid, states, replies, k - 1);
        }
        if states[k - 1].first_err is Some {
            let e = states[k - 1].first_err->Some_0;
            let b = choose|b: int|
                0 <= b < k - 1 && #[trigger] went_wrong(b, replies[b]) && replies[b].error() == Some(
                    e,
                ) && forall|j: int| 0 <= j < b ==> !#[trigger] went_wrong(j, replies[j]);
            assert(went_wrong(b, replies[b]));
        } else if went_wrong(k - 1, r) {
            assert(states[k].first_err == r.error());
        }
    }
}

} // verus!
