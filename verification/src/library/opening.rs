//! Which directories can be opened as a library.

use vstd::prelude::*;

use crate::error::{CoreError, ErrorView};
use crate::ids;
use crate::library::types::LibraryPathKind;
use crate::library::Library;
use crate::paths::LibraryPaths;
use crate::text;

verus! {

/// The version of the library layout.
pub const LIBRARY_SCHEMA: u32 = 1;

/// The stamp of a library, kept in its `library.json`.
#[derive(Debug)]
pub struct LibraryMeta {
    pub schema: u32,
    pub library_id: String,
    pub created_at: String,
}

impl LibraryMeta {
    /// The stamp of a new library.
    pub fn new(library_id: String, created_at: String) -> (m: Self)
        ensures
            m.schema == LIBRARY_SCHEMA,
            m.library_id@ == library_id@,
            m.created_at@ == created_at@,
    {
        LibraryMeta { schema: LIBRARY_SCHEMA, library_id, created_at }
    }

    /// The stamp of a new library, with a fresh identifier.
    pub fn fresh(created_at: String) -> (m: Self)
        ensures
            m.schema == LIBRARY_SCHEMA,
            ids::is_uuid_text(m.library_id@),
            m.created_at@ == created_at@,
    {
        Self::new(ids::fresh_id(), created_at)
    }
}

/// What was found at the place of `library.json`.
#[derive(Debug)]
pub enum StampFile {
    /// Nothing.
    Absent,
    /// A file that could not be read, with the reason.
    Unreadable(String),
    /// A file that is no stamp, with the reason.
    Malformed(String),
    /// A stamp.
    Read(LibraryMeta),
}

/// What was found at the root of a would-be library.
#[derive(Debug)]
pub struct DirectoryProbe {
    /// Whether the directory exists.
    pub root_exists: bool,
    pub stamp: StampFile,
    /// The names in the directory.
    pub entries: Vec<String>,
}

/// Whether a file name is a dotfile.
pub open spec fn is_dotfile(name: Seq<char>) -> bool {
    name.len() > 0 && name[0] == '.'
}

/// Whether a directory holds anything but dotfiles.
pub open spec fn has_foreign_entry(names: Seq<Seq<char>>) -> bool {
    exists|i: int| 0 <= i < names.len() && !is_dotfile(#[trigger] names[i])
}

/// What is wrong with a stamp, if anything.
pub open spec fn stamp_error(root: Seq<char>, library_json: Seq<char>, stamp: StampFile) -> Option<ErrorView> {
    match stamp {
        StampFile::Absent => None,
        StampFile::Unreadable(e) => Some(
            ErrorView::InvalidPath("could not read "@ + library_json + (": "@ + e@)),
        ),
        StampFile::Malformed(e) => Some(
            ErrorView::InvalidPath(root + " has a malformed library.json: "@ + e@),
        ),
        StampFile::Read(meta) => if meta.schema != LIBRARY_SCHEMA {
            Some(
                ErrorView::InvalidPath(
                    root + " has library schema "@ + text::decimal(meta.schema as int)
                        + " (expected "@ + text::decimal(LIBRARY_SCHEMA as int) + ")"@,
                ),
            )
        } else if !ids::is_uuid_text(meta.library_id@) {
            Some(ErrorView::InvalidPath(root + " has an invalid library_id stamp"@))
        } else {
            None
        },
    }
}

/// The refusal of a directory that belongs to something else.
pub open spec fn foreign_error(root: Seq<char>) -> ErrorView {
    ErrorView::InvalidPath(root + " is not empty and is not a reHydrate library (no library.json)"@)
}

/// What a would-be library directory is, or why it cannot be one.
pub open spec fn probe_outcome(paths: LibraryPaths, probe: DirectoryProbe) -> Result<
    LibraryPathKind,
    ErrorView,
> {
    if !probe.root_exists {
        Ok(LibraryPathKind::Empty)
    } else if !(probe.stamp is Absent) {
        match stamp_error(paths.root@, paths.library_json@, probe.stamp) {
            Some(e) => Err(e),
            None => Ok(LibraryPathKind::Existing),
        }
    } else if has_foreign_entry(probe.entries.deep_view()) {
        Err(foreign_error(paths.root@))
    } else {
        Ok(LibraryPathKind::Empty)
    }
}

fn check_stamp(paths: &LibraryPaths, stamp: &StampFile) -> (r: Result<(), CoreError>)
    ensures
        match r {
            Ok(_) => stamp_error(paths.root@, paths.library_json@, *stamp) is None,
            Err(e) => stamp_error(paths.root@, paths.library_json@, *stamp) == Some(e.deep_view()),
        },
{
    let root = paths.root.as_str();
    match stamp {
        StampFile::Absent => Ok(()),
        StampFile::Unreadable(e) => {
            let what = text::concat2("could not read ", paths.library_json.as_str());
            let why = text::concat2(": ", e.as_str());
            Err(CoreError::InvalidPath(text::concat2(what.as_str(), why.as_str())))
        },
        StampFile::Malformed(e) => Err(
            CoreError::InvalidPath(
                text::concat3(root, " has a malformed library.json: ", e.as_str()),
            ),
        ),
        StampFile::Read(meta) => {
            if meta.schema != LIBRARY_SCHEMA {
                let found = text::decimal_of(meta.schema as i64);
                let expected = text::decimal_of(LIBRARY_SCHEMA as i64);
                let what = text::concat3(root, " has library schema ", found.as_str());
                let hint = text::concat3(what.as_str(), " (expected ", expected.as_str());
                Err(CoreError::InvalidPath(text::concat2(hint.as_str(), ")")))
            } else if !ids::is_uuid(meta.library_id.as_str()) {
                Err(CoreError::InvalidPath(text::concat2(root, " has an invalid library_id stamp")))
            } else {
                Ok(())
            }
        },
    }
}

/// Whether a list of names holds anything but dotfiles.
fn holds_foreign(names: &Vec<String>) -> (r: bool)
    ensures
        r == has_foreign_entry(names.deep_view()),
{
    let mut i: usize = 0;
    while i < names.len()
        invariant
            i <= names.len(),
            forall|k: int| 0 <= k < i ==> is_dotfile(#[trigger] names.deep_view()[k]),
        decreases names.len() - i,
    {
        let name = names[i].as_str();
        assert(names.deep_view()[i as int] == name@);
        if name.is_empty() || name.get_char(0) != '.' {
            assert(!is_dotfile(names.deep_view()[i as int]));
            return true;
        }
        i = i + 1;
    }
    false
}

impl Library {
    /// Says what a would-be library directory is: empty, so that a library can be created
    /// there, or a library already. Anything else is refused, so that a library never spreads
    /// into a directory that belongs to something else.
    pub fn probe_path(paths: &LibraryPaths, probe: &DirectoryProbe) -> (r: Result<
        LibraryPathKind,
        CoreError,
    >)
        ensures
            match r {
                Ok(kind) => probe_outcome(*paths, *probe) == Ok::<LibraryPathKind, ErrorView>(kind),
                Err(e) => probe_outcome(*paths, *probe) == Err::<LibraryPathKind, ErrorView>(
                    e.deep_view(),
                ),
            },
    {
        if !probe.root_exists {
            return Ok(LibraryPathKind::Empty);
        }
        let absent = match &probe.stamp {
            StampFile::Absent => true,
            _ => false,
        };
        if !absent {
            match check_stamp(paths, &probe.stamp) {
                Ok(_) => Ok(LibraryPathKind::Existing),
                Err(e) => Err(e),
            }
        } else if holds_foreign(&probe.entries) {
            Err(
                CoreError::InvalidPath(
                    text::concat2(
                        paths.root.as_str(),
                        " is not empty and is not a reHydrate library (no library.json)",
                    ),
                ),
            )
        } else {
            Ok(LibraryPathKind::Empty)
        }
    }

    /// Whether a directory can be opened as a library. It can exactly if the probe succeeds.
    pub fn validate_library_path(paths: &LibraryPaths, probe: &DirectoryProbe) -> (r: Result<
        (),
        CoreError,
    >)
        ensures
            match r {
                Ok(_) => probe_outcome(*paths, *probe) is Ok,
                Err(e) => probe_outcome(*paths, *probe) == Err::<LibraryPathKind, ErrorView>(
                    e.deep_view(),
                ),
            },
    {
        match Self::probe_path(paths, probe) {
            Ok(_) => Ok(()),
            Err(e) => Err(e),
        }
    }
}

/// A directory that holds anything but dotfiles and no stamp is never claimed.
pub proof fn foreign_directory_is_refused(paths: LibraryPaths, probe: DirectoryProbe)
    requires
        probe.root_exists,
        probe.stamp is Absent,
        has_foreign_entry(probe.entries.deep_view()),
    ensures
        probe_outcome(paths, probe) == Err::<LibraryPathKind, ErrorView>(foreign_error(paths.root@)),
{
}

/// A stamp that could not be read whole is refused and not taken for a fresh directory.
pub proof fn broken_stamp_is_refused(paths: LibraryPaths, probe: DirectoryProbe)
    requires
        probe.root_exists,
        probe.stamp is Unreadable || probe.stamp is Malformed,
    ensures
        probe_outcome(paths, probe) is Err,
{
}

/// A directory with a stamp of the present layout and a proper identifier opens as a library,
/// whatever else it holds.
pub proof fn proper_stamp_is_accepted(paths: LibraryPaths, probe: DirectoryProbe, meta: LibraryMeta)
    requires
        probe.root_exists,
        probe.stamp == StampFile::Read(meta),
        meta.schema == LIBRARY_SCHEMA,
        ids::is_uuid_text(meta.library_id@),
    ensures
        probe_outcome(paths, probe) == Ok::<LibraryPathKind, ErrorView>(LibraryPathKind::Existing),
{
}

/// A directory that does not exist, or holds nothing but files whose names begin with a dot, is a
/// place for a new library.
pub proof fn empty_directory_is_accepted(paths: LibraryPaths, probe: DirectoryProbe)
    ensures
        !probe.root_exists ==> probe_outcome(paths, probe) == Ok::<LibraryPathKind, ErrorView>(
            LibraryPathKind::Empty,
        ),
        probe.root_exists && probe.stamp is Absent && (forall|i: int|
            0 <= i < probe.entries@.len() ==> (#[trigger] probe.entries@[i])@.len() > 0
                && probe.entries@[i]@[0] == '.') ==> probe_outcome(paths, probe) == Ok::<
            LibraryPathKind,
            ErrorView,
        >(LibraryPathKind::Empty),
{
    let names = probe.entries.deep_view();
    if probe.root_exists && probe.stamp is Absent && forall|i: int|
        0 <= i < probe.entries@.len() ==> (#[trigger] probe.entries@[i])@.len() > 0
            && probe.entries@[i]@[0] == '.' {
        assert forall|i: int| 0 <= i < names.len() implies is_dotfile(#[trigger] names[i]) by {
            assert(names[i] == probe.entries@[i]@);
        }
    }
}

/// A directory with a name in it that does not begin with a dot, and without a stamp, is refused.
pub proof fn occupied_directory_is_refused(paths: LibraryPaths, probe: DirectoryProbe, i: int)
    requires
        probe.root_exists,
        probe.stamp is Absent,
        0 <= i < probe.entries@.len(),
        probe.entries@[i]@.len() == 0 || probe.entries@[i]@[0] != '.',
    ensures
        probe_outcome(paths, probe) is Err,
{
    let names = probe.entries.deep_view();
    assert(names[i] == probe.entries@[i]@);
    assert(!is_dotfile(names[i]));
}

/// A stamp of another layout, or without a proper identifier, is refused.
pub proof fn wrong_stamp_is_refused(paths: LibraryPaths, probe: DirectoryProbe, meta: LibraryMeta)
    requires
        probe.root_exists,
        probe.stamp == StampFile::Read(meta),
        meta.schema != 1 || !ids::is_uuid_text(meta.library_id@),
    ensures
        probe_outcome(paths, probe) is Err,
{
}

} // verus!
