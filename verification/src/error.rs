//! What can go wrong in the library.

use vstd::prelude::*;

use crate::text;

verus! {

/// An error of the library.
#[derive(Debug)]
pub enum CoreError {
    /// The file system failed.
    Io(String),
    /// The version log failed.
    Sqlite(String),
    /// A text was not the JSON it had to be.
    Json(String),
    /// The library's own records contradict themselves.
    Corrupt { path: String, reason: String },
    /// A manifest refers to a blob that is not in the store.
    MissingBlob(String),
    /// The bytes of a blob no longer have the digest they are filed under.
    BlobCorrupt { expected: String, actual: String },
    /// There is no such document, version or folder.
    NotFound(String),
    /// The directory cannot serve as a library.
    InvalidPath(String),
    /// An argument is out of range.
    InvalidArgument(String),
    /// Another process has the library open.
    AlreadyOpen(String),
    /// An export would overwrite a file.
    AlreadyExists(String),
    /// The document is archived, so no live version may be recorded for it.
    DocumentArchived(String),
}

/// The model of a [`CoreError`].
pub enum ErrorView {
    Io(Seq<char>),
    Sqlite(Seq<char>),
    Json(Seq<char>),
    Corrupt { path: Seq<char>, reason: Seq<char> },
    MissingBlob(Seq<char>),
    BlobCorrupt { expected: Seq<char>, actual: Seq<char> },
    NotFound(Seq<char>),
    InvalidPath(Seq<char>),
    InvalidArgument(Seq<char>),
    AlreadyOpen(Seq<char>),
    AlreadyExists(Seq<char>),
    DocumentArchived(Seq<char>),
}

impl DeepView for CoreError {
    type V = ErrorView;

    open spec fn deep_view(&self) -> ErrorView {
        match *self {
            CoreError::Io(m) => ErrorView::Io(m@),
            CoreError::Sqlite(m) => ErrorView::Sqlite(m@),
            CoreError::Json(m) => ErrorView::Json(m@),
            CoreError::Corrupt { path, reason } => ErrorView::Corrupt { path: path@, reason: reason@ },
            CoreError::MissingBlob(h) => ErrorView::MissingBlob(h@),
            CoreError::BlobCorrupt { expected, actual } => ErrorView::BlobCorrupt {
                expected: expected@,
                actual: actual@,
            },
            CoreError::NotFound(m) => ErrorView::NotFound(m@),
            CoreError::InvalidPath(m) => ErrorView::InvalidPath(m@),
            CoreError::InvalidArgument(m) => ErrorView::InvalidArgument(m@),
            CoreError::AlreadyOpen(m) => ErrorView::AlreadyOpen(m@),
            CoreError::AlreadyExists(m) => ErrorView::AlreadyExists(m@),
            CoreError::DocumentArchived(m) => ErrorView::DocumentArchived(m@),
        }
    }
}

/// What an error says to the user.
pub open spec fn message_of(e: ErrorView) -> Seq<char> {
    match e {
        ErrorView::Io(m) => "io: "@ + m,
        ErrorView::Sqlite(m) => "sqlite: "@ + m,
        ErrorView::Json(m) => "serde_json: "@ + m,
        ErrorView::Corrupt { path, reason } => "library at "@ + path + " is corrupt: "@ + reason,
        ErrorView::MissingBlob(h) => "manifest references unknown blob "@ + h,
        ErrorView::BlobCorrupt { expected, actual } => "blob "@ + expected
            + " corrupt: bytes hash to "@ + actual,
        ErrorView::NotFound(m) => "not found: "@ + m,
        ErrorView::InvalidPath(m) => "invalid library path: "@ + m,
        ErrorView::InvalidArgument(m) => "invalid argument: "@ + m,
        ErrorView::AlreadyOpen(m) => "library at "@ + m + " is already open by another process"@,
        ErrorView::AlreadyExists(m) => "destination already exists: "@ + m,
        ErrorView::DocumentArchived(m) => "document "@ + m
            + " is archived; unarchive before recording a new version"@,
    }
}

impl CoreError {
    /// What the error says to the user.
    pub fn message(&self) -> (s: String)
        ensures
            s@ == message_of(self.deep_view()),
            self matches CoreError::Io(m) ==> s@ == "io: "@ + m@,
            self matches CoreError::Sqlite(m) ==> s@ == "sqlite: "@ + m@,
            self matches CoreError::Json(m) ==> s@ == "serde_json: "@ + m@,
            self matches CoreError::Corrupt { path, reason } ==> s@ == "library at "@ + path@
                + " is corrupt: "@ + reason@,
            self matches CoreError::MissingBlob(h) ==> s@ == "manifest references unknown blob "@
                + h@,
            self matches CoreError::BlobCorrupt { expected, actual } ==> s@ == "blob "@ + expected@
                + " corrupt: bytes hash to "@ + actual@,
            self matches CoreError::NotFound(m) ==> s@ == "not found: "@ + m@,
            self matches CoreError::InvalidPath(m) ==> s@ == "invalid library path: "@ + m@,
            self matches CoreError::InvalidArgument(m) ==> s@ == "invalid argument: "@ + m@,
            self matches CoreError::AlreadyOpen(m) ==> s@ == "library at "@ + m@
                + " is already open by another process"@,
            self matches CoreError::AlreadyExists(m) ==> s@ == "destination already exists: "@ + m@,
            self matches CoreError::DocumentArchived(m) ==> s@ == "document "@ + m@
                + " is archived; unarchive before recording a new version"@,
    {
        match self {
            CoreError::Io(m) => text::concat2("io: ", m.as_str()),
            CoreError::Sqlite(m) => text::concat2("sqlite: ", m.as_str()),
            CoreError::Json(m) => text::concat2("serde_json: ", m.as_str()),
            CoreError::Corrupt { path, reason } => {
                let place = text::concat3("library at ", path.as_str(), " is corrupt: ");
                text::concat2(place.as_str(), reason.as_str())
            },
            CoreError::MissingBlob(h) => text::concat2(
                "manifest references unknown blob ",
                h.as_str(),
            ),
            CoreError::BlobCorrupt { expected, actual } => {
                let blob = text::concat3("blob ", expected.as_str(), " corrupt: bytes hash to ");
                text::concat2(blob.as_str(), actual.as_str())
            },
            CoreError::NotFound(m) => text::concat2("not found: ", m.as_str()),
            CoreError::InvalidPath(m) => text::concat2("invalid library path: ", m.as_str()),
            CoreError::InvalidArgument(m) => text::concat2("invalid argument: ", m.as_str()),
            CoreError::AlreadyOpen(m) => text::concat3(
                "library at ",
                m.as_str(),
                " is already open by another process",
            ),
            CoreError::AlreadyExists(m) => text::concat2("destination already exists: ", m.as_str()),
            CoreError::DocumentArchived(m) => text::concat3(
                "document ",
                m.as_str(),
                " is archived; unarchive before recording a new version",
            ),
        }
    }
}

/// The model of the outcome of a fallible operation.
pub open spec fn outcome<T: DeepView>(r: Result<T, CoreError>) -> Result<<T as DeepView>::V, ErrorView> {
    match r {
        Ok(x) => Ok(x.deep_view()),
        Err(e) => Err(e.deep_view()),
    }
}

} // verus!
