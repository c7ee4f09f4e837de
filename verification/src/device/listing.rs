//! Listing the documents and folders of the tablet.

use vstd::prelude::*;

use crate::device;
use crate::device::order;
use crate::device::DeviceError;
use crate::device::DeviceErrorView;
use crate::device::DirEntry;
use crate::device::DirEntryView;
use crate::device::RemoteEntry;
use crate::device::RemoteEntryKind;
use crate::device::RemoteEntryView;
use crate::json;
use crate::text;

verus! {

/// The document or folder whose metadata an entry of the document directory is.
pub open spec fn described_by(name: Seq<char>) -> Option<Seq<char>> {
    if device::is_safe_name(name) {
        text::stripped(name, ".metadata"@)
    } else {
        None
    }
}

/// The documents and folders whose metadata lies in a directory.
pub open spec fn described_in(entries: Seq<DirEntryView>) -> Seq<Seq<char>>
    decreases entries.len(),
{
    if entries.len() == 0 {
        seq![]
    } else {
        let rest = described_in(entries.drop_last());
        match described_by(entries.last().name) {
            Some(uuid) => rest.push(uuid),
            None => rest,
        }
    }
}

/// Finds the documents and folders whose metadata lies in a directory.
pub(crate) fn collect_described(entries: &Vec<DirEntry>) -> (uuids: Vec<String>)
    ensures
        uuids.deep_view() == described_in(entries.deep_view()),
{
    let ghost all = entries.deep_view();
    let mut uuids: Vec<String> = Vec::new();
    let mut i: usize = 0;
    proof {
        assert(all.take(0) =~= seq![]);
        assert(uuids.deep_view() =~= seq![]);
    }
    while i < entries.len()
        invariant
            all == entries.deep_view(),
            i <= entries.len(),
            uuids.deep_view() == described_in(all.take(i as int)),
        decreases entries.len() - i,
    {
        proof {
            assert(all.take(i + 1).drop_last() =~= all.take(i as int));
            assert(all.take(i + 1).last() == entries[i as int].deep_view());
        }
        let name = entries[i].name.as_str();
        if device::is_safe_entry_name(name) {
            if let Some(uuid) = text::strip_suffix(name, ".metadata") {
                let ghost before = uuids.deep_view();
                let copy = uuid.to_owned();
                uuids.push(copy);
                assert(uuids.deep_view() =~= before.push(copy@));
            }
        }
        i = i + 1;
    }
    assert(all.take(all.len() as int) =~= all);
    uuids
}

/// The path of the metadata of a document or folder.
pub open spec fn metadata_path(dir: Seq<char>, uuid: Seq<char>) -> Seq<char> {
    device::child_path(dir, uuid + ".metadata"@)
}

/// Writes the path of the metadata of a document or folder.
pub(crate) fn path_of_metadata(dir: &str, uuid: &str) -> (s: String)
    ensures
        s@ == metadata_path(dir@, uuid@),
{
    let name = text::concat2(uuid, ".metadata");
    device::child(dir, name.as_str())
}

/// What the metadata says of a document or folder. The type of a document stands elsewhere.
pub open spec fn entry_of(uuid: Seq<char>, metadata: serde_json::Value) -> RemoteEntryView {
    let folder = json::text_field(metadata, "type"@) == Some("CollectionType"@);
    RemoteEntryView {
        uuid,
        visible_name: match json::text_field(metadata, "visibleName"@) {
            Some(name) => name,
            None => "Untitled"@,
        },
        doc_type: if folder {
            "Folder"@
        } else {
            "Notebook"@
        },
        parent: device::nonempty(json::text_field(metadata, "parent"@)),
        kind: if folder {
            RemoteEntryKind::Folder
        } else {
            RemoteEntryKind::Document
        },
        device_mtime_hint: json::text_field(metadata, "lastModified"@),
        metadata,
    }
}

/// Reads what the metadata says of a document or folder.
pub fn interpret(uuid: &str, metadata: serde_json::Value) -> (e: RemoteEntry)
    ensures
        e.deep_view() == entry_of(uuid@, metadata),
        e.uuid@ == uuid@,
        e.metadata == metadata,
        e.parent.deep_view() == (match json::text_field(metadata, "parent"@) {
            Some(p) => if p.len() > 0 {
                Some(p)
            } else {
                None
            },
            None => None,
        }),
        e.kind == RemoteEntryKind::Folder <==> json::text_field(metadata, "type"@) == Some(
            "CollectionType"@,
        ),
{
    let visible_name = match json::get_text(&metadata, "visibleName") {
        Some(name) => name.to_owned(),
        None => "Untitled".to_owned(),
    };
    let parent = match json::get_text(&metadata, "parent") {
        Some(p) => if p.is_empty() {
            None
        } else {
            Some(p.to_owned())
        },
        None => None,
    };
    let device_mtime_hint = text::to_opt_string(json::get_text(&metadata, "lastModified"));
    let folder = match json::get_text(&metadata, "type") {
        Some(t) => text::str_eq(t, "CollectionType"),
        None => false,
    };
    RemoteEntry {
        uuid: uuid.to_owned(),
        visible_name,
        doc_type: if folder {
            "Folder".to_owned()
        } else {
            "Notebook".to_owned()
        },
        parent,
        kind: if folder {
            RemoteEntryKind::Folder
        } else {
            RemoteEntryKind::Document
        },
        device_mtime_hint,
        metadata,
    }
}

/// The type of a document, from its content description if that could be read.
pub open spec fn doc_type_of(content: Option<Seq<u8>>) -> Seq<char> {
    match content {
        Some(bytes) => match json::parsed_json(bytes) {
            Ok(v) => if json::text_field(v, "fileType"@) == Some("pdf"@) {
                "DocumentType.Pdf"@
            } else if json::text_field(v, "fileType"@) == Some("epub"@) {
                "DocumentType.Epub"@
            } else {
                "Notebook"@
            },
            Err(_) => "Notebook"@,
        },
        None => "Notebook"@,
    }
}

/// Tells the type of a document from its content description.
pub fn doc_type_from_content(content: Option<&[u8]>) -> (t: &'static str)
    ensures
        t@ == doc_type_of(
            match content {
                Some(bytes) => Some(bytes@),
                None => None,
            },
        ),
{
    match content {
        Some(bytes) => match json::parse(bytes) {
            Ok(v) => match json::get_text(&v, "fileType") {
                Some(t) => if text::str_eq(t, "pdf") {
                    "DocumentType.Pdf"
                } else if text::str_eq(t, "epub") {
                    "DocumentType.Epub"
                } else {
                    "Notebook"
                },
                None => "Notebook",
            },
            Err(_) => "Notebook",
        },
        None => "Notebook",
    }
}

/// A step for the caller to take.
#[derive(Debug)]
pub enum ListingStep {
    /// List a directory.
    List(String),
    /// Read a file.
    Read(String),
    /// Nothing is left to do.
    Finished,
}

/// The model of a [`ListingStep`].
pub enum ListingStepView {
    List(Seq<char>),
    Read(Seq<char>),
    Finished,
}

impl DeepView for ListingStep {
    type V = ListingStepView;

    open spec fn deep_view(&self) -> ListingStepView {
        match *self {
            ListingStep::List(p) => ListingStepView::List(p@),
            ListingStep::Read(p) => ListingStepView::Read(p@),
            ListingStep::Finished => ListingStepView::Finished,
        }
    }
}

enum State {
    Start,
    Run { todo: Vec<String>, current: Option<RemoteEntry>, out: Vec<RemoteEntry> },
    Failed(DeviceError),
}

/// The model of a [`Listing`].
pub enum ListingView {
    /// Nothing has been done.
    Start,
    /// What is left, the document whose content description comes next, and the entries so far.
    Run {
        todo: Seq<Seq<char>>,
        current: Option<RemoteEntryView>,
        out: Seq<RemoteEntryView>,
    },
    /// Something went wrong.
    Failed(DeviceErrorView),
}

/// The step that comes next.
pub open spec fn next_step(dir: Seq<char>, v: ListingView) -> ListingStepView {
    match v {
        ListingView::Start => ListingStepView::List(dir),
        ListingView::Run { todo, current, out } => match current {
            Some(e) => ListingStepView::Read(device::child_path(dir, e.uuid + ".content"@)),
            None => if todo.len() > 0 {
                ListingStepView::Read(metadata_path(dir, todo[0]))
            } else {
                ListingStepView::Finished
            },
        },
        ListingView::Failed(_) => ListingStepView::Finished,
    }
}

/// What follows on the listing of the document directory.
pub open spec fn after_listing(
    v: ListingView,
    r: Result<Seq<DirEntryView>, DeviceErrorView>,
) -> ListingView {
    match r {
        Ok(entries) => ListingView::Run {
            todo: described_in(entries),
            current: None,
            out: seq![],
        },
        Err(e) => ListingView::Failed(e),
    }
}

/// What follows on reading a file. Metadata has to be there and to make sense; a content
/// description need not.
pub open spec fn after_read(v: ListingView, r: Result<Seq<u8>, DeviceErrorView>) -> ListingView {
    match v {
        ListingView::Run { todo, current: Some(e), out } => ListingView::Run {
            todo,
            current: None,
            out: out.push(
                RemoteEntryView {
                    doc_type: doc_type_of(
                        match r {
                            Ok(bytes) => Some(bytes),
                            Err(_) => None,
                        },
                    ),
                    ..e
                },
            ),
        },
        ListingView::Run { todo, current: None, out } => match r {
            Err(e) => ListingView::Failed(e),
            Ok(bytes) => match json::parsed_json(bytes) {
                Err(m) => ListingView::Failed(
                    DeviceErrorView::Protocol("bad metadata json for "@ + todo[0] + ": "@ + m),
                ),
                Ok(value) => {
                    let e = entry_of(todo[0], value);
                    if e.kind == RemoteEntryKind::Folder {
                        ListingView::Run { todo: todo.skip(1), current: None, out: out.push(e) }
                    } else {
                        ListingView::Run { todo: todo.skip(1), current: Some(e), out }
                    }
                },
            },
        },
        _ => v,
    }
}

/// The work of listing the tablet.
pub struct Listing {
    dir: String,
    state: State,
}

impl Listing {
    /// The document directory.
    pub closed spec fn dir(&self) -> Seq<char> {
        self.dir@
    }

    /// How far the work has come.
    pub closed spec fn view(&self) -> ListingView {
        match self.state {
            State::Start => ListingView::Start,
            State::Run { todo, current, out } => ListingView::Run {
                todo: todo.deep_view(),
                current: current.deep_view(),
                out: out.deep_view(),
            },
            State::Failed(e) => ListingView::Failed(e.deep_view()),
        }
    }

    /// Starts on a document directory.
    pub fn new(dir: &str) -> (l: Self)
        ensures
            l.dir() == dir@,
            l@ == ListingView::Start,
    {
        Listing { dir: dir.to_owned(), state: State::Start }
    }

    /// The step that comes next.
    pub fn step(&self) -> (s: ListingStep)
        ensures
            s.deep_view() == next_step(self.dir(), self@),
    {
        match &self.state {
            State::Start => ListingStep::List(self.dir.clone()),
            State::Run { todo, current, out: _ } => match current {
                Some(e) => {
                    let name = text::concat2(e.uuid.as_str(), ".content");
                    ListingStep::Read(device::child(self.dir.as_str(), name.as_str()))
                },
                None => {
                    assert(todo.deep_view().len() == todo@.len());
                    if todo.len() > 0 {
                        assert(todo.deep_view()[0] == todo@[0]@);
                        ListingStep::Read(path_of_metadata(self.dir.as_str(), todo[0].as_str()))
                    } else {
                        ListingStep::Finished
                    }
                },
            },
            State::Failed(_) => ListingStep::Finished,
        }
    }

    /// Takes in the listing of the document directory.
    pub fn listed(self, r: Result<Vec<DirEntry>, DeviceError>) -> (l: Self)
        requires
            next_step(self.dir(), self@) is List,
        ensures
            l.dir() == self.dir(),
            l@ == after_listing(self@, device::device_outcome(r)),
    {
        let state = match r {
            Ok(entries) => {
                let out: Vec<RemoteEntry> = Vec::new();
                assert(out.deep_view() =~= seq![]);
                State::Run { todo: collect_described(&entries), current: None, out }
            },
            Err(e) => State::Failed(e),
        };
        Listing { dir: self.dir, state }
    }

    /// Takes in the bytes of a file.
    pub fn read(self, r: Result<Vec<u8>, DeviceError>) -> (l: Self)
        requires
            next_step(self.dir(), self@) is Read,
        ensures
            l.dir() == self.dir(),
            l@ == after_read(
                self@,
                match r {
                    Ok(bytes) => Ok(bytes@),
                    Err(e) => Err(e.deep_view()),
                },
            ),
    {
        let Listing { dir, state } = self;
        let state = match state {
            State::Run { todo, current: Some(e), out } => {
                let mut out = out;
                let ghost before = out.deep_view();
                let kind = match &r {
                    Ok(bytes) => doc_type_from_content(Some(bytes.as_slice())),
                    Err(_) => doc_type_from_content(None),
                };
                let mut e = e;
                e.doc_type = kind.to_owned();
                out.push(e);
                assert(out.deep_view() =~= before.push(e.deep_view()));
                State::Run { todo, current: None, out }
            },
            State::Run { todo, current: None, out } => match r {
                Err(e) => State::Failed(e),
                Ok(bytes) => {
                    let mut todo = todo;
                    let mut out = out;
                    let ghost before = out.deep_view();
                    let ghost names = todo.deep_view();
                    assert(names.len() == todo@.len());
                    let uuid = todo.remove(0);
                    assert(uuid@ == names[0]);
                    assert(todo.deep_view() =~= names.skip(1));
                    match json::parse(bytes.as_slice()) {
                        Err(m) => {
                            let mut text = text::concat3(
                                "bad metadata json for ",
                                uuid.as_str(),
                                ": ",
                            );
                            text.append(m.as_str());
                            State::Failed(DeviceError::Protocol(text))
                        },
                        Ok(value) => {
                            let e = interpret(uuid.as_str(), value);
                            if e.kind == RemoteEntryKind::Folder {
                                out.push(e);
                                assert(out.deep_view() =~= before.push(e.deep_view()));
                                State::Run { todo, current: None, out }
                            } else {
                                State::Run { todo, current: Some(e), out }
                            }
                        },
                    }
                },
            },
            other => other,
        };
        Listing { dir, state }
    }

    /// The entries, in the order of their identifiers; or what went wrong.
    pub fn finish(self) -> (r: Result<Vec<RemoteEntry>, DeviceError>)
        requires
            next_step(self.dir(), self@) is Finished,
        ensures
            device::device_outcome(r) == (match self@ {
                ListingView::Failed(e) => Err(e),
                ListingView::Run { todo, current, out } => Ok(order::ordered::<RemoteEntry>(out)),
                ListingView::Start => Ok(seq![]),
            }),
            self@ matches ListingView::Run { todo, current, out } ==> (r matches Ok(list)
                && list.deep_view().to_multiset() == out.to_multiset()),
            r matches Ok(list) ==> forall|i: int, j: int|
                0 <= i < j < list@.len() ==> !text::lex_less(
                    (#[trigger] list@[j]).uuid@,
                    (#[trigger] list@[i]).uuid@,
                ),
    {
        proof {
            if let ListingView::Run { todo, current, out } = self@ {
                order::ordering_sorts::<RemoteEntry>(out);
                let sorted = order::ordered::<RemoteEntry>(out);
                assert forall|i: int, j: int| 0 <= i < j < sorted.len() implies !text::lex_less(
                    (#[trigger] sorted[j]).uuid,
                    (#[trigger] sorted[i]).uuid,
                ) by {}
            }
        }
        match self.state {
            State::Failed(e) => Err(e),
            State::Run { todo: _, current: _, out } => {
                let list = order::order(out);
                assert forall|i: int, j: int| 0 <= i < j < list@.len() implies !text::lex_less(
                    (#[trigger] list@[j]).uuid@,
                    (#[trigger] list@[i]).uuid@,
                ) by {
                    assert(list.deep_view()[i] == list@[i].deep_view());
                    assert(list.deep_view()[j] == list@[j].deep_view());
                }
                Ok(list)
            },
            State::Start => {
                let none: Vec<RemoteEntry> = Vec::new();
                assert(none.deep_view() =~= seq![]);
                Ok(none)
            },
        }
    }
}

/// What the metadata says of a document or folder is taken as it stands: the parent where it is
/// a text that is not empty, the name where there is one, the time of the last change, and
/// whether it is a folder. Document and folder alike keep their metadata.
pub proof fn entry_says_what_its_metadata_says(uuid: Seq<char>, metadata: serde_json::Value)
    ensures
        entry_of(uuid, metadata).uuid == uuid,
        entry_of(uuid, metadata).metadata == metadata,
        json::text_field(metadata, "parent"@) matches Some(p) ==> (if p.len() > 0 {
            entry_of(uuid, metadata).parent == Some(p)
        } else {
            entry_of(uuid, metadata).parent is None
        }),
        json::text_field(metadata, "parent"@) is None ==> entry_of(uuid, metadata).parent is None,
        json::text_field(metadata, "visibleName"@) matches Some(name) ==> entry_of(
            uuid,
            metadata,
        ).visible_name == name,
        json::text_field(metadata, "visibleName"@) is None ==> entry_of(uuid, metadata).visible_name
            == "Untitled"@,
        entry_of(uuid, metadata).device_mtime_hint == json::text_field(metadata, "lastModified"@),
        entry_of(uuid, metadata).kind == RemoteEntryKind::Folder <==> json::text_field(
            metadata,
            "type"@,
        ) == Some("CollectionType"@),
{
}

/// The type of a document is told by the file type in its content description; a document
/// without a content description that can be read, or of another file type, is a notebook.
pub proof fn document_type_is_that_of_its_file(bytes: Seq<u8>, v: serde_json::Value)
    ensures
        json::parsed_json(bytes) == Ok::<serde_json::Value, Seq<char>>(v) && json::text_field(
            v,
            "fileType"@,
        ) == Some("pdf"@) ==> doc_type_of(Some(bytes)) == "DocumentType.Pdf"@,
        json::parsed_json(bytes) == Ok::<serde_json::Value, Seq<char>>(v) && json::text_field(
            v,
            "fileType"@,
        ) == Some("epub"@) ==> doc_type_of(Some(bytes)) == "DocumentType.Epub"@,
        json::parsed_json(bytes) == Ok::<serde_json::Value, Seq<char>>(v) && json::text_field(
            v,
            "fileType"@,
        ) != Some("pdf"@) && json::text_field(v, "fileType"@) != Some("epub"@) ==> doc_type_of(
            Some(bytes),
        ) == "Notebook"@,
        json::parsed_json(bytes) is Err ==> doc_type_of(Some(bytes)) == "Notebook"@,
        doc_type_of(None) == "Notebook"@,
{
    reveal_strlit("pdf");
    reveal_strlit("epub");
    assert("pdf"@.len() != "epub"@.len());
}

/// What lies under the name of a document or folder and `.metadata` is found, and nothing else:
/// the names that are found are those of the directory that end so, in the same order.
pub proof fn descriptions_are_found(entries: Seq<DirEntryView>)
    ensures
        forall|j: int|
            0 <= j < entries.len() && device::is_safe_name((#[trigger] entries[j]).name)
                && text::has_suffix(entries[j].name, ".metadata"@) ==> exists|i: int|
                0 <= i < described_in(entries).len() && #[trigger] described_in(entries)[i]
                    + ".metadata"@ == entries[j].name,
        forall|i: int|
            0 <= i < described_in(entries).len() ==> exists|j: int|
                0 <= j < entries.len() && device::is_safe_name((#[trigger] entries[j]).name)
                    && entries[j].name == #[trigger] described_in(entries)[i] + ".metadata"@,
        (forall|a: int, b: int|
            0 <= a < b < entries.len() ==> (#[trigger] entries[a]).name
                != (#[trigger] entries[b]).name) ==> described_in(entries).no_duplicates(),
    decreases entries.len(),
{
    if entries.len() > 0 {
        let shorter = entries.drop_last();
        let rest = described_in(shorter);
        let all = described_in(entries);
        let n = entries.len() - 1;
        let name = entries.last().name;
        descriptions_are_found(shorter);
        assert(entries[n].name == name);
        if text::has_suffix(name, ".metadata"@) {
            assert(name.take(name.len() - ".metadata"@.len()) + ".metadata"@ =~= name);
        }
        assert forall|j: int|
            0 <= j < entries.len() && device::is_safe_name((#[trigger] entries[j]).name)
                && text::has_suffix(entries[j].name, ".metadata"@) implies exists|i: int|
            0 <= i < all.len() && #[trigger] all[i] + ".metadata"@ == entries[j].name by {
            if j < n {
                assert(shorter[j] == entries[j]);
                let i = choose|i: int|
                    0 <= i < rest.len() && #[trigger] rest[i] + ".metadata"@ == shorter[j].name;
                assert(all[i] == rest[i]);
            } else {
                assert(all[all.len() - 1] + ".metadata"@ == name);
            }
        }
        assert forall|i: int| 0 <= i < all.len() implies exists|j: int|
            0 <= j < entries.len() && device::is_safe_name((#[trigger] entries[j]).name)
                && entries[j].name == #[trigger] all[i] + ".metadata"@ by {
            if i < rest.len() {
                assert(all[i] == rest[i]);
                let j = choose|j: int|
                    0 <= j < shorter.len() && device::is_safe_name((#[trigger] shorter[j]).name)
                        && shorter[j].name == rest[i] + ".metadata"@;
                assert(entries[j] == shorter[j]);
            } else {
                assert(entries[n].name == all[i] + ".metadata"@);
            }
        }
        if forall|a: int, b: int|
            0 <= a < b < entries.len() ==> (#[trigger] entries[a]).name
                != (#[trigger] entries[b]).name {
            assert forall|a: int, b: int| 0 <= a < b < shorter.len() implies (
            #[trigger] shorter[a]).name != (#[trigger] shorter[b]).name by {
                assert(entries[a].name != entries[b].name);
            }
            assert(rest.no_duplicates());
            if all.len() > rest.len() {
                assert forall|i: int| 0 <= i < rest.len() implies rest[i] != all.last() by {
                    let j = choose|j: int|
                        0 <= j < shorter.len() && device::is_safe_name((#[trigger] shorter[j]).name)
                            && shorter[j].name == rest[i] + ".metadata"@;
                    assert(entries[j].name != entries[n].name);
                }
            }
        }
    }
}

/// Whether a listing goes through the given states, from the listing of the document directory
/// on, when the files that it asks for are read as given.
pub open spec fn is_run(
    dir: Seq<char>,
    entries: Seq<DirEntryView>,
    states: Seq<ListingView>,
    replies: Seq<Result<Seq<u8>, DeviceErrorView>>,
) -> bool {
    &&& states.len() == replies.len() + 1
    &&& states[0] == after_listing(ListingView::Start, Ok(entries))
    &&& forall|k: int|
        0 <= k < replies.len() ==> next_step(dir, states[k]) is Read && states[k + 1] == after_read(
            states[k],
            #[trigger] replies[k],
        )
}

/// Whether an entry holds the metadata that was read from its own file.
pub open spec fn has_read_metadata(
    dir: Seq<char>,
    states: Seq<ListingView>,
    replies: Seq<Result<Seq<u8>, DeviceErrorView>>,
    e: RemoteEntryView,
) -> bool {
    exists|k: int|
        0 <= k < replies.len() && next_step(dir, states[k]) == ListingStepView::Read(
            dir + "/"@ + e.uuid + ".metadata"@,
        ) && (#[trigger] replies[k] matches Ok(bytes) && json::parsed_json(bytes) == Ok::<
            serde_json::Value,
            Seq<char>,
        >(e.metadata))
}

/// Whether an entry has the type that its own content description tells.
pub open spec fn has_read_type(
    dir: Seq<char>,
    states: Seq<ListingView>,
    replies: Seq<Result<Seq<u8>, DeviceErrorView>>,
    e: RemoteEntryView,
) -> bool {
    exists|k: int|
        0 <= k < replies.len() && next_step(dir, states[k]) == ListingStepView::Read(
            dir + "/"@ + e.uuid + ".content"@,
        ) && e.doc_type == doc_type_of(
            match #[trigger] replies[k] {
                Ok(bytes) => Some(bytes),
                Err(_) => None,
            },
        )
}

/// Whether an entry says what its metadata says.
pub open spec fn is_faithful(e: RemoteEntryView) -> bool {
    &&& e.parent == (match json::text_field(e.metadata, "parent"@) {
        Some(p) => if p.len() > 0 {
            Some(p)
        } else {
            None
        },
        None => None,
    })
    &&& e.visible_name == (match json::text_field(e.metadata, "visibleName"@) {
        Some(name) => name,
        None => "Untitled"@,
    })
    &&& e.device_mtime_hint == json::text_field(e.metadata, "lastModified"@)
    &&& e.kind == RemoteEntryKind::Folder <==> json::text_field(e.metadata, "type"@) == Some(
        "CollectionType"@,
    )
}

/// The identifiers of entries.
pub open spec fn uuids_of(out: Seq<RemoteEntryView>) -> Seq<Seq<char>> {
    out.map_values(|e: RemoteEntryView| e.uuid)
}

spec fn sound_so_far(
    dir: Seq<char>,
    entries: Seq<DirEntryView>,
    states: Seq<ListingView>,
    replies: Seq<Result<Seq<u8>, DeviceErrorView>>,
    v: ListingView,
) -> bool {
    v matches ListingView::Run { todo, current, out } ==> {
        &&& described_in(entries) == uuids_of(out) + (match current {
            Some(e) => seq![e.uuid],
            None => seq![],
        }) + todo
        &&& forall|i: int|
            0 <= i < out.len() ==> is_faithful(#[trigger] out[i]) && has_read_metadata(
                dir,
                states,
                replies,
                out[i],
            ) && (if out[i].kind == RemoteEntryKind::Folder {
                out[i].doc_type == "Folder"@
            } else {
                has_read_type(dir, states, replies, out[i])
            })
        &&& current matches Some(e) ==> is_faithful(e) && has_read_metadata(dir, states, replies, e)
            && e.kind == RemoteEntryKind::Document
    }
}

proof fn lemma_sound_so_far(
    dir: Seq<char>,
    entries: Seq<DirEntryView>,
    states: Seq<ListingView>,
    replies: Seq<Result<Seq<u8>, DeviceErrorView>>,
    k: int,
)
    requires
        is_run(dir, entries, states, replies),
        0 <= k <= replies.len(),
    ensures
        sound_so_far(dir, entries, states, replies, states[k]),
        !(states[k] is Start),
    decreases k,
{
    if k == 0 {
        if let ListingView::Run { todo, current, out } = states[0] {
            assert(uuids_of(out) + seq![] + todo =~= todo);
        }
    } else {
        lemma_sound_so_far(dir, entries, states, replies, k - 1);
        let r = replies[k - 1];
        if let ListingView::Run { todo, current, out } = states[k - 1] {
            if let ListingView::Run { todo: todo2, current: current2, out: out2 } = states[k] {
                match current {
                    Some(e) => {
                        let x = out2.last();
                        assert(out2 =~= out.push(x));
                        assert(dir + "/"@ + (e.uuid + ".content"@) =~= dir + "/"@ + x.uuid
                            + ".content"@);
                        assert(has_read_metadata(dir, states, replies, x)) by {
                            let m = choose|m: int|
                                0 <= m < replies.len() && next_step(dir, states[m])
                                    == ListingStepView::Read(dir + "/"@ + e.uuid + ".metadata"@) && (
                                #[trigger] replies[m] matches Ok(bytes) && json::parsed_json(bytes)
                                    == Ok::<serde_json::Value, Seq<char>>(e.metadata));
                            assert(replies[m] is Ok);
                        }
                        assert(has_read_type(dir, states, replies, x));
                        assert(uuids_of(out2) =~= uuids_of(out).push(x.uuid));
                        assert(uuids_of(out2) + seq![] + todo2 =~= uuids_of(out) + seq![e.uuid]
                            + todo);
                    },
                    None => {
                        let uuid = todo[0];
                        let value = json::parsed_json(r->Ok_0)->Ok_0;
                        let e = entry_of(uuid, value);
                        entry_says_what_its_metadata_says(uuid, value);
                        assert(dir + "/"@ + (uuid + ".metadata"@) =~= dir + "/"@ + e.uuid
                            + ".metadata"@);
                        assert(has_read_metadata(dir, states, replies, e));
                        assert(todo =~= seq![uuid] + todo2);
                        if e.kind == RemoteEntryKind::Folder {
                            assert(uuids_of(out2) =~= uuids_of(out).push(uuid));
                            assert(uuids_of(out2) + seq![] + todo2 =~= uuids_of(out) + seq![]
                                + todo);
                        } else {
                            assert(uuids_of(out2) + seq![uuid] + todo2 =~= uuids_of(out) + seq![]
                                + todo);
                        }
                    },
                }
            }
        }
    }
}

/// A listing that has come to its end without a failure has one entry for each document and
/// folder whose metadata lies in the document directory, in the same order. Each entry says
/// what its own metadata says, as it was read, document or folder alike; and a document has the
/// type that its own content description tells.
pub proof fn finished_listing_is_faithful(
    dir: Seq<char>,
    entries: Seq<DirEntryView>,
    states: Seq<ListingView>,
    replies: Seq<Result<Seq<u8>, DeviceErrorView>>,
    out: Seq<RemoteEntryView>,
)
    requires
        is_run(dir, entries, states, replies),
        next_step(dir, states.last()) is Finished,
        states.last() matches ListingView::Run { todo: _, current: _, out: o } && o == out,
    ensures
        uuids_of(out) == described_in(entries),
        out.len() == described_in(entries).len(),
        forall|i: int|
            0 <= i < out.len() ==> {
                let e = #[trigger] out[i];
                &&& has_read_metadata(dir, states, replies, e)
                &&& json::text_field(e.metadata, "parent"@) matches Some(p) ==> p.len() > 0
                    ==> e.parent == Some(p)
                &&& e.parent matches Some(p) ==> p.len() > 0 && json::text_field(
                    e.metadata,
                    "parent"@,
                ) == Some(p)
                &&& json::text_field(e.metadata, "visibleName"@) matches Some(name)
                    ==> e.visible_name == name
                &&& json::text_field(e.metadata, "visibleName"@) is None ==> e.visible_name
                    == "Untitled"@
                &&& e.device_mtime_hint == json::text_field(e.metadata, "lastModified"@)
                &&& e.kind == RemoteEntryKind::Folder <==> json::text_field(e.metadata, "type"@)
                    == Some("CollectionType"@)
                &&& e.kind == RemoteEntryKind::Folder ==> e.doc_type == "Folder"@
                &&& e.kind == RemoteEntryKind::Document ==> has_read_type(dir, states, replies, e)
            },
{
    lemma_sound_so_far(dir, entries, states, replies, replies.len() as int);
    if let ListingView::Run { todo, current, out: o } = states.last() {
        assert(todo.len() == 0 && current is None);
        assert(uuids_of(o) + seq![] + todo =~= uuids_of(o));
    }
}

/// A listing fails only where metadata could not be read or makes no sense, and then with what
/// the tablet said, or with the name of the document or folder.
pub proof fn listing_fails_on_bad_metadata_alone(
    dir: Seq<char>,
    v: ListingView,
    r: Result<Seq<u8>, DeviceErrorView>,
)
    requires
        v is Run,
        next_step(dir, v) is Read,
    ensures
        after_read(v, r) is Failed <==> v->current is None && match r {
            Ok(bytes) => json::parsed_json(bytes) is Err,
            Err(_) => true,
        },
        v->current is None && r is Err ==> after_read(v, r) == ListingView::Failed(r->Err_0),
        v->current is None && r is Ok && after_read(v, r) is Failed ==> after_read(v, r)
            == ListingView::Failed(
            DeviceErrorView::Protocol(
                "bad metadata json for "@ + v->todo[0] + ": "@ + json::parsed_json(
                    r->Ok_0,
                )->Err_0,
            ),
        ),
{
}

} // verus!
