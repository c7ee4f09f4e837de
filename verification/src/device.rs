//! The tablet: what it holds, how it is reached, and what is decided along the way.
//!
//! Every operation on the tablet is a state machine. It says which step comes next, the caller
//! takes that step over SFTP, and hands back what came of it.

pub mod commit;
pub mod delete;
pub mod fetch;
pub mod host_key;
pub mod listing;
pub mod order;
pub mod push;
pub mod reap;
pub mod sftp;
pub mod trash;

use vstd::prelude::*;

use crate::text;

verus! {

/// What can go wrong with the tablet.
#[derive(Debug)]
pub enum DeviceError {
    /// There is nothing at the path.
    NotFound(String),
    /// A step took too long.
    Timeout(String),
    /// The tablet sent what makes no sense.
    Protocol(String),
    /// Reading or writing failed.
    Io(String),
    /// The tablet does not answer.
    Unreachable(String),
    /// The password is wrong.
    AuthFailed,
    /// The tablet shows another host key than before.
    HostKeyChanged {
        endpoint: String,
        pinned_fingerprint: String,
        presented_fingerprint: String,
    },
    /// Anything else.
    Other(String),
}

/// The model of a [`DeviceError`].
pub enum DeviceErrorView {
    NotFound(Seq<char>),
    Timeout(Seq<char>),
    Protocol(Seq<char>),
    Io(Seq<char>),
    Unreachable(Seq<char>),
    AuthFailed,
    HostKeyChanged {
        endpoint: Seq<char>,
        pinned_fingerprint: Seq<char>,
        presented_fingerprint: Seq<char>,
    },
    Other(Seq<char>),
}

impl DeepView for DeviceError {
    type V = DeviceErrorView;

    open spec fn deep_view(&self) -> DeviceErrorView {
        match *self {
            DeviceError::NotFound(m) => DeviceErrorView::NotFound(m@),
            DeviceError::Timeout(m) => DeviceErrorView::Timeout(m@),
            DeviceError::Protocol(m) => DeviceErrorView::Protocol(m@),
            DeviceError::Io(m) => DeviceErrorView::Io(m@),
            DeviceError::Unreachable(m) => DeviceErrorView::Unreachable(m@),
            DeviceError::AuthFailed => DeviceErrorView::AuthFailed,
            DeviceError::HostKeyChanged { endpoint, pinned_fingerprint, presented_fingerprint } =>
                DeviceErrorView::HostKeyChanged {
                endpoint: endpoint@,
                pinned_fingerprint: pinned_fingerprint@,
                presented_fingerprint: presented_fingerprint@,
            },
            DeviceError::Other(m) => DeviceErrorView::Other(m@),
        }
    }
}

impl DeviceError {
    /// Whether the error says that there is nothing at a path.
    pub fn is_not_found(&self) -> (r: bool)
        ensures
            r == (self.deep_view() is NotFound),
    {
        match self {
            DeviceError::NotFound(_) => true,
            _ => false,
        }
    }
}

/// The model of the outcome of an operation on the tablet.
pub open spec fn device_outcome<T: DeepView>(r: Result<T, DeviceError>) -> Result<
    <T as DeepView>::V,
    DeviceErrorView,
> {
    match r {
        Ok(x) => Ok(x.deep_view()),
        Err(e) => Err(e.deep_view()),
    }
}

/// The model of the outcome of an operation that gives nothing back.
pub open spec fn unit_outcome(r: Result<(), DeviceError>) -> Result<(), DeviceErrorView> {
    match r {
        Ok(_) => Ok(()),
        Err(e) => Err(e.deep_view()),
    }
}

/// The first error that counts: one after another error does not, nor does one that says that
/// there was nothing to work on.
pub open spec fn noted(first: Option<DeviceErrorView>, e: DeviceErrorView) -> Option<
    DeviceErrorView,
> {
    if first is None && !(e is NotFound) {
        Some(e)
    } else {
        first
    }
}

/// Keeps the first error that counts.
pub(crate) fn note(first: &mut Option<DeviceError>, e: DeviceError)
    ensures
        final(first).deep_view() == noted(old(first).deep_view(), e.deep_view()),
{
    if first.is_none() && !e.is_not_found() {
        *first = Some(e);
    }
}

/// What kind of thing an entry of the tablet is.
#[derive(Debug, Clone, Copy, PartialEq, Eq, Structural)]
pub enum RemoteEntryKind {
    Document,
    Folder,
}

/// A document or folder on the tablet.
#[derive(Debug)]
pub struct RemoteEntry {
    pub uuid: String,
    pub visible_name: String,
    pub doc_type: String,
    pub parent: Option<String>,
    pub kind: RemoteEntryKind,
    pub device_mtime_hint: Option<String>,
    pub metadata: serde_json::Value,
}

/// The model of a [`RemoteEntry`].
pub struct RemoteEntryView {
    pub uuid: Seq<char>,
    pub visible_name: Seq<char>,
    pub doc_type: Seq<char>,
    pub parent: Option<Seq<char>>,
    pub kind: RemoteEntryKind,
    pub device_mtime_hint: Option<Seq<char>>,
    pub metadata: serde_json::Value,
}

impl DeepView for RemoteEntry {
    type V = RemoteEntryView;

    open spec fn deep_view(&self) -> RemoteEntryView {
        RemoteEntryView {
            uuid: self.uuid@,
            visible_name: self.visible_name@,
            doc_type: self.doc_type@,
            parent: self.parent.deep_view(),
            kind: self.kind,
            device_mtime_hint: self.device_mtime_hint.deep_view(),
            metadata: self.metadata,
        }
    }
}

/// A file of a document on the tablet.
#[derive(Debug)]
pub struct RemoteFile {
    pub path: String,
    pub bytes: Vec<u8>,
    pub mode: u32,
}

/// The model of a [`RemoteFile`].
pub struct RemoteFileView {
    pub path: Seq<char>,
    pub bytes: Seq<u8>,
    pub mode: u32,
}

impl DeepView for RemoteFile {
    type V = RemoteFileView;

    open spec fn deep_view(&self) -> RemoteFileView {
        RemoteFileView { path: self.path@, bytes: self.bytes@, mode: self.mode }
    }
}

/// An entry of a directory on the tablet.
#[derive(Debug)]
pub struct DirEntry {
    pub name: String,
    pub is_dir: bool,
    pub is_symlink: bool,
}

/// The model of a [`DirEntry`].
pub struct DirEntryView {
    pub name: Seq<char>,
    pub is_dir: bool,
    pub is_symlink: bool,
}

impl DeepView for DirEntry {
    type V = DirEntryView;

    open spec fn deep_view(&self) -> DirEntryView {
        DirEntryView { name: self.name@, is_dir: self.is_dir, is_symlink: self.is_symlink }
    }
}

/// What the tablet says of itself.
#[derive(Debug)]
pub struct DeviceInfo {
    pub model: String,
    pub serial: Option<String>,
    pub software_version: Option<String>,
}

/// A text, unless it is empty.
pub open spec fn nonempty(s: Option<Seq<char>>) -> Option<Seq<char>> {
    match s {
        Some(x) if x.len() > 0 => Some(x),
        _ => None,
    }
}

impl DeviceInfo {
    /// Puts together what the tablet's own commands print. A command that failed, or printed
    /// nothing but whitespace, says nothing.
    pub fn of_outputs(model: &str, serial: Option<&str>, software_version: Option<&str>) -> (i: Self)
        ensures
            i.model@ == (if model@.len() == 0 {
                "reMarkable"@
            } else {
                model@
            }),
            i.serial.deep_view() == (match serial {
                Some(s) => nonempty(Some(text::trimmed(s@))),
                None => None,
            }),
            i.software_version.deep_view() == (match software_version {
                Some(s) => nonempty(Some(text::trimmed(s@))),
                None => None,
            }),
            serial matches Some(s) ==> text::trimmed(s@).len() > 0 ==> i.serial.deep_view() == Some(
                text::trimmed(s@),
            ),
            serial is None || text::trimmed(serial->0@).len() == 0 ==> i.serial is None,
            software_version matches Some(s) ==> text::trimmed(s@).len() > 0
                ==> i.software_version.deep_view() == Some(text::trimmed(s@)),
            software_version is None || text::trimmed(software_version->0@).len() == 0
                ==> i.software_version is None,
    {
        DeviceInfo {
            model: if model.is_empty() {
                "reMarkable".to_owned()
            } else {
                model.to_owned()
            },
            serial: trimmed_or_none(serial),
            software_version: trimmed_or_none(software_version),
        }
    }
}

fn trimmed_or_none(s: Option<&str>) -> (r: Option<String>)
    ensures
        r.deep_view() == (match s {
            Some(x) => nonempty(Some(text::trimmed(x@))),
            None => None,
        }),
{
    match s {
        Some(x) => {
            let bare = text::trim(x);
            if bare.as_str().is_empty() {
                None
            } else {
                Some(bare)
            }
        },
        None => None,
    }
}

/// Where the tablet answers over USB.
pub const DEFAULT_HOST: &'static str = "10.11.99.1";

pub const DEFAULT_PORT: u16 = 22;

pub const DEFAULT_USER: &'static str = "root";

/// Where the tablet keeps its documents.
pub const XOCHITL_DIR: &'static str = "/home/root/.local/share/remarkable/xochitl";

/// How to reach the tablet.
#[derive(Debug)]
pub struct SshConfig {
    pub host: String,
    pub port: u16,
    pub user: String,
    pub xochitl_dir: String,
}

impl Default for SshConfig {
    fn default() -> (c: Self)
        ensures
            c.host@ == DEFAULT_HOST@,
            c.port == DEFAULT_PORT,
            c.user@ == DEFAULT_USER@,
            c.xochitl_dir@ == XOCHITL_DIR@,
            c.host@ == "10.11.99.1"@,
            c.port == 22,
            c.user@ == "root"@,
            c.xochitl_dir@ == "/home/root/.local/share/remarkable/xochitl"@,
    {
        SshConfig {
            host: DEFAULT_HOST.to_owned(),
            port: DEFAULT_PORT,
            user: DEFAULT_USER.to_owned(),
            xochitl_dir: XOCHITL_DIR.to_owned(),
        }
    }
}

impl Clone for SshConfig {
    fn clone(&self) -> (c: Self)
        ensures
            c.host@ == self.host@,
            c.port == self.port,
            c.user@ == self.user@,
            c.xochitl_dir@ == self.xochitl_dir@,
    {
        SshConfig {
            host: self.host.clone(),
            port: self.port,
            user: self.user.clone(),
            xochitl_dir: self.xochitl_dir.clone(),
        }
    }
}

impl SshConfig {
    /// Host and port as one text, under which the host key is pinned.
    pub fn endpoint(&self) -> (s: String)
        ensures
            s@ == self.host@ + ":"@ + text::digits(self.port as nat),
    {
        let port = text::decimal_of_usize(self.port as usize);
        text::concat3(self.host.as_str(), ":", port.as_str())
    }
}

/// Whether a name from the tablet is the name of one entry of a directory, and nothing that
/// leads elsewhere.
pub open spec fn is_safe_name(name: Seq<char>) -> bool {
    &&& name.len() > 0
    &&& name != "."@
    &&& name != ".."@
    &&& !name.contains('/')
    &&& !name.contains('\\')
}

/// Whether a name from the tablet is the name of one entry of a directory. Names that are empty,
/// `.`, `..` or hold a separator are not.
pub fn is_safe_entry_name(name: &str) -> (r: bool)
    ensures
        r == is_safe_name(name@),
        r <==> name@.len() > 0 && name@ != "."@ && name@ != ".."@ && forall|i: int|
            0 <= i < name@.len() ==> #[trigger] name@[i] != '/' && name@[i] != '\\',
{
    !name.is_empty() && !text::str_eq(name, ".") && !text::str_eq(name, "..")
        && !text::contains_char(name, '/') && !text::contains_char(name, '\\')
}

/// The path of an entry of a directory.
pub open spec fn child_path(dir: Seq<char>, name: Seq<char>) -> Seq<char> {
    dir + "/"@ + name
}

/// Different names in a directory have different paths.
pub proof fn lemma_child_path_injective(dir: Seq<char>, a: Seq<char>, b: Seq<char>)
    requires
        child_path(dir, a) == child_path(dir, b),
    ensures
        a == b,
{
    reveal_strlit("/");
    assert(child_path(dir, a).skip(dir.len() as int + 1) =~= a);
    assert(child_path(dir, b).skip(dir.len() as int + 1) =~= b);
}

/// Writes the path of an entry of a directory.
pub(crate) fn child(dir: &str, name: &str) -> (s: String)
    ensures
        s@ == child_path(dir@, name@),
        s@ == dir@ + "/"@ + name@,
{
    text::concat3(dir, "/", name)
}

/// Whether a name in the document directory belongs to a document: it is the document's own
/// directory, or a file or directory beside it.
pub open spec fn belongs_to(name: Seq<char>, uuid: Seq<char>) -> bool {
    name == uuid || text::has_prefix(name, uuid + "."@)
}

/// Whether a name in the document directory belongs to a document.
pub(crate) fn name_belongs_to(name: &str, uuid: &str) -> (r: bool)
    ensures
        r == belongs_to(name@, uuid@),
{
    let prefix = text::concat2(uuid, ".");
    text::str_eq(name, uuid) || text::starts_with(name, prefix.as_str())
}

/// A safe name leads nowhere but into its directory: the part of the path after the directory
/// holds no separator.
pub proof fn safe_names_stay_inside(dir: Seq<char>, name: Seq<char>)
    requires
        is_safe_name(name),
    ensures
        child_path(dir, name).skip(dir.len() as int + 1) == name,
        forall|i: int|
            dir.len() < i < child_path(dir, name).len() ==> #[trigger] child_path(dir, name)[i]
                != '/',
{
    reveal_strlit("/");
    assert(child_path(dir, name).skip(dir.len() as int + 1) =~= name);
    assert forall|i: int| dir.len() < i < child_path(dir, name).len() implies #[trigger] child_path(
        dir,
        name,
    )[i] != '/' by {
        assert(child_path(dir, name)[i] == name[i - dir.len() - 1]);
        assert(name.contains(name[i - dir.len() - 1]));
    }
}

} // verus!
