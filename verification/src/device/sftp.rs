//! Errors of the SFTP server, the names of half-written files, and the limits on reading.

use vstd::prelude::*;

use russh_sftp::client::error::Error as SftpError;

use crate::device::DeviceError;
use crate::device::DeviceErrorView;
use crate::text;

verus! {

/// The largest file that is read, in bytes.
pub const MAX_REMOTE_FILE_BYTES: u64 = 536_870_912;

/// How many directories may lie inside one another below a document.
pub const MAX_SUBTREE_DEPTH: usize = 16;

#[verifier::external_type_specification]
#[verifier::external_body]
pub struct ExSftpError(SftpError);

/// Whether an error is a status of the server that says that there is no such file.
pub uninterp spec fn says_no_such_file(e: SftpError) -> bool;

/// The message of an error.
pub uninterp spec fn sftp_message(e: SftpError) -> Seq<char>;

/// Tells whether a `russh_sftp::client::error::Error` is a `Status` with the code `NoSuchFile`.
#[verifier::external_body]
fn is_no_such_file(e: &SftpError) -> (r: bool)
    ensures
        r == says_no_such_file(*e),
{
    match e {
        SftpError::Status(s) => {
            s.status_code == russh_sftp::protocol::StatusCode::NoSuchFile
        },
        _ => false,
    }
}

/// Calls the `Display` of `russh_sftp::client::error::Error`.
#[verifier::external_body]
fn message_of(e: &SftpError) -> (s: String)
    ensures
        s@ == sftp_message(*e),
{
    e.to_string()
}

/// A failure of a step over SFTP.
#[derive(Debug)]
pub struct SftpFailure {
    /// Whether the server says that there is no such file.
    pub no_such_file: bool,
    /// The message.
    pub message: String,
}

/// The model of an [`SftpFailure`].
pub struct SftpFailureView {
    pub no_such_file: bool,
    pub message: Seq<char>,
}

impl DeepView for SftpFailure {
    type V = SftpFailureView;

    open spec fn deep_view(&self) -> SftpFailureView {
        SftpFailureView { no_such_file: self.no_such_file, message: self.message@ }
    }
}

/// The failure that an error of the SFTP client stands for.
pub open spec fn failure_of(e: SftpError) -> SftpFailureView {
    SftpFailureView { no_such_file: says_no_such_file(e), message: sftp_message(e) }
}

impl SftpFailure {
    /// The failure that an error of the SFTP client stands for.
    pub fn of(e: &SftpError) -> (f: Self)
        ensures
            f.deep_view() == failure_of(*e),
    {
        SftpFailure { no_such_file: is_no_such_file(e), message: message_of(e) }
    }
}

/// The text of a failed step.
pub open spec fn step_message(op: Seq<char>, path: Seq<char>, message: Seq<char>) -> Seq<char> {
    op + " "@ + path + ": "@ + message
}

/// What a failed step means. Servers differ in how they say that there is nothing at a path:
/// the status counts, and so do the usual words in the message, in any mix of cases.
pub open spec fn classified(op: Seq<char>, path: Seq<char>, f: SftpFailureView) -> DeviceErrorView {
    let whole = step_message(op, path, f.message);
    let lower = text::lowered(whole);
    if f.no_such_file || text::has_substring(lower, "no such file"@) || text::has_substring(
        lower,
        "nosuchfile"@,
    ) || text::has_substring(lower, "enoent"@) {
        DeviceErrorView::NotFound(path)
    } else {
        DeviceErrorView::Other(whole)
    }
}

/// Says what a failed step means.
pub fn classify(op: &str, path: &str, f: &SftpFailure) -> (e: DeviceError)
    ensures
        e.deep_view() == classified(op@, path@, f.deep_view()),
{
    if f.no_such_file {
        return DeviceError::NotFound(path.to_owned());
    }
    let mut whole = text::concat3(op, " ", path);
    whole.append(": ");
    whole.append(f.message.as_str());
    if text::contains_lowered(whole.as_str(), "no such file") || text::contains_lowered(
        whole.as_str(),
        "nosuchfile",
    ) || text::contains_lowered(whole.as_str(), "enoent") {
        DeviceError::NotFound(path.to_owned())
    } else {
        DeviceError::Other(whole)
    }
}

/// Says what an error of the SFTP client means.
pub fn sftp_err(op: &str, path: &str, e: SftpError) -> (r: DeviceError)
    ensures
        r.deep_view() == classified(op@, path@, failure_of(e)),
{
    classify(op, path, &SftpFailure::of(&e))
}

/// Where a file is written before it takes its place.
pub open spec fn staged(path: Seq<char>) -> Seq<char> {
    path + ".rehydrate-tmp"@
}

/// Where the previous file waits until the new one has taken its place.
pub open spec fn backup(path: Seq<char>) -> Seq<char> {
    path + ".rehydrate-bak"@
}

/// Where a file is written before it takes its place.
pub fn staged_path(path: &str) -> (s: String)
    ensures
        s@ == staged(path@),
{
    text::concat2(path, ".rehydrate-tmp")
}

/// Where the previous file waits until the new one has taken its place.
pub fn backup_path(path: &str) -> (s: String)
    ensures
        s@ == backup(path@),
{
    text::concat2(path, ".rehydrate-bak")
}

/// A file, its staged copy and its backup never share a path.
pub proof fn three_places_are_apart(path: Seq<char>)
    ensures
        staged(path) != path,
        backup(path) != path,
        staged(path) != backup(path),
{
    reveal_strlit(".rehydrate-tmp");
    reveal_strlit(".rehydrate-bak");
    assert(staged(path).len() == path.len() + 14);
    assert(backup(path).len() == path.len() + 14);
    assert(staged(path).last() == 'p');
    assert(backup(path).last() == 'k');
}

/// The directory of a path: what comes before the last separator, unless that is nothing.
pub open spec fn directory_of(path: Seq<char>) -> Option<Seq<char>>
    decreases path.len(),
{
    if path.len() == 0 {
        None
    } else if path.last() == '/' {
        if path.len() == 1 {
            None
        } else {
            Some(path.drop_last())
        }
    } else {
        directory_of(path.drop_last())
    }
}

/// The directory that has to exist before a file is written.
pub fn parent_dir(path: &str) -> (r: Option<String>)
    ensures
        r.deep_view() == directory_of(path@),
{
    let mut n: usize = path.unicode_len();
    assert(path@.take(path@.len() as int) =~= path@);
    while n > 0
        invariant
            n <= path@.len(),
            directory_of(path@.take(n as int)) == directory_of(path@),
        decreases n,
    {
        let ghost head = path@.take(n as int);
        assert(head.drop_last() =~= path@.take(n - 1));
        if path.get_char(n - 1) == '/' {
            if n == 1 {
                return None;
            }
            return Some(path.substring_char(0, n - 1).to_owned());
        }
        n = n - 1;
    }
    None
}

/// Accepts the bytes of a file that were read, if they are not too many. One byte more than the
/// limit is enough to know.
pub fn check_size(path: &str, bytes: Vec<u8>) -> (r: Result<Vec<u8>, DeviceError>)
    ensures
        match r {
            Ok(b) => b == bytes && bytes@.len() <= MAX_REMOTE_FILE_BYTES,
            Err(e) => bytes@.len() > MAX_REMOTE_FILE_BYTES && e.deep_view()
                == DeviceErrorView::Other(
                "remote file "@ + path@ + " exceeds "@ + "536870912"@ + " byte cap"@,
            ),
        },
        r is Ok <==> bytes@.len() <= 536_870_912,
{
    if bytes.len() as u64 > MAX_REMOTE_FILE_BYTES {
        let mut m = text::concat3("remote file ", path, " exceeds ");
        m.append("536870912");
        m.append(" byte cap");
        return Err(DeviceError::Other(m));
    }
    Ok(bytes)
}

/// The text that bytes spell, with a sign in the place of what is not UTF-8.
pub uninterp spec fn lossy_text(bytes: Seq<u8>) -> Seq<char>;

/// Calls `String::from_utf8_lossy`: the text that the bytes spell if they are UTF-8; what stands
/// for other bytes is left to the name `lossy_text`.
#[verifier::external_body]
fn decode_lossy(bytes: &[u8]) -> (s: String)
    ensures
        s@ == lossy_text(bytes@),
        vstd::utf8::valid_utf8(bytes@) ==> s@ == vstd::utf8::decode_utf8(bytes@),
{
    String::from_utf8_lossy(bytes).into_owned()
}

/// What a command printed, without the whitespace around it.
pub fn command_output(bytes: &[u8]) -> (s: String)
    ensures
        s@ == text::trimmed(lossy_text(bytes@)),
{
    let whole = decode_lossy(bytes);
    text::trim(whole.as_str())
}

/// A step that failed because there is nothing at the path is told by the status or by the usual
/// words, in any mix of cases, and names the path; any other failure is told in full, with what was
/// tried and where.
pub proof fn failures_are_told_apart(op: Seq<char>, path: Seq<char>, f: SftpFailureView)
    ensures
        ({
            let whole = op + " "@ + path + ": "@ + f.message;
            let absent = f.no_such_file || text::has_substring(
                text::lowered(whole),
                "no such file"@,
            ) || text::has_substring(text::lowered(whole), "nosuchfile"@) || text::has_substring(
                text::lowered(whole),
                "enoent"@,
            );
            &&& absent ==> classified(op, path, f) == DeviceErrorView::NotFound(path)
            &&& !absent ==> classified(op, path, f) == DeviceErrorView::Other(whole)
        }),
{
}

/// The directory of a path is what stands before its last separator; a path without one, or with
/// nothing before it, has none.
pub proof fn directory_stands_before_the_last_separator(dir: Seq<char>, name: Seq<char>)
    requires
        forall|i: int| 0 <= i < name.len() ==> #[trigger] name[i] != '/',
    ensures
        dir.len() > 0 ==> directory_of(dir + seq!['/'] + name) == Some(dir),
        directory_of(seq!['/'] + name) is None,
        directory_of(name) is None,
    decreases name.len(),
{
    let a = dir + seq!['/'] + name;
    let b = seq!['/'] + name;
    if name.len() == 0 {
        assert(a.last() == '/');
        assert(a.drop_last() =~= dir);
        assert(b =~= seq!['/']);
    } else {
        let shorter = name.drop_last();
        assert(forall|i: int| 0 <= i < shorter.len() ==> shorter[i] == name[i]);
        directory_stands_before_the_last_separator(dir, shorter);
        assert(a.last() == name.last() && b.last() == name.last());
        assert(name[name.len() - 1] != '/');
        assert(a.drop_last() =~= dir + seq!['/'] + shorter);
        assert(b.drop_last() =~= seq!['/'] + shorter);
    }
}

} // verus!
