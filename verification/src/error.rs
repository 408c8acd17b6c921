//! The errors of the service and of the stores under it.

use crate::oid::{hex, HexError, ObjectId};
use crate::text::{cat2, cat3, cat4, decimal, decimal_text};
use vstd::prelude::*;

verus! {

// ---- File system -----------------------------------------------------------

/// An error of the file system that holds the working tree.
#[derive(Debug, Clone, PartialEq, Eq)]
pub enum FsError {
    /// Nothing stands at the path.
    NotFound(String),
    /// Any other failure.
    Failed(String),
}

pub enum FsErrorView {
    NotFound(Seq<char>),
    Failed(Seq<char>),
}

impl View for FsError {
    type V = FsErrorView;

    open spec fn view(&self) -> FsErrorView {
        match self {
            FsError::NotFound(t) => FsErrorView::NotFound(t@),
            FsError::Failed(t) => FsErrorView::Failed(t@),
        }
    }
}

/// Whether the error says that nothing stands at the path.
pub fn is_not_found(e: &FsError) -> (yes: bool)
    ensures
        yes == (e is NotFound),
{
    matches!(e, FsError::NotFound(_))
}

// ---- Refs ------------------------------------------------------------------

/// An error of the store of refs.
#[derive(Debug, Clone, PartialEq, Eq)]
pub enum RefStoreError {
    NotFound(String),
    /// The ref does not hold the value that the update expects.
    Conflict { expected: Option<ObjectId>, actual: Option<ObjectId> },
    InvalidName(String),
    Io(String),
    Backend(String),
}

pub enum RefStoreErrorView {
    NotFound(Seq<char>),
    Conflict { expected: Option<ObjectId>, actual: Option<ObjectId> },
    InvalidName(Seq<char>),
    Io(Seq<char>),
    Backend(Seq<char>),
}

impl View for RefStoreError {
    type V = RefStoreErrorView;

    open spec fn view(&self) -> RefStoreErrorView {
        match self {
            RefStoreError::NotFound(t) => RefStoreErrorView::NotFound(t@),
            RefStoreError::Conflict { expected, actual } => RefStoreErrorView::Conflict {
                expected: *expected,
                actual: *actual,
            },
            RefStoreError::InvalidName(t) => RefStoreErrorView::InvalidName(t@),
            RefStoreError::Io(t) => RefStoreErrorView::Io(t@),
            RefStoreError::Backend(t) => RefStoreErrorView::Backend(t@),
        }
    }
}

/// An identifier that may be absent, as it is shown in messages.
pub open spec fn shown_oid(oid: Option<ObjectId>) -> Seq<char> {
    match oid {
        Some(o) => "Some(Sha1("@ + hex(o.bytes@) + "))"@,
        None => "None"@,
    }
}

fn show_oid(oid: &Option<ObjectId>) -> (text: String)
    ensures
        text@ == shown_oid(*oid),
{
    match oid {
        Some(o) => cat3("Some(Sha1(", o.to_hex().as_str(), "))"),
        None => "None".to_owned(),
    }
}

impl RefStoreErrorView {
    /// The message of the error.
    pub open spec fn message(self) -> Seq<char> {
        match self {
            RefStoreErrorView::NotFound(t) => "ref not found: "@ + t,
            RefStoreErrorView::Conflict { expected, actual } => "CAS conflict: expected "@
                + shown_oid(expected) + ", actual "@ + shown_oid(actual),
            RefStoreErrorView::InvalidName(t) => "invalid ref name: "@ + t,
            RefStoreErrorView::Io(t) => "backend io: "@ + t,
            RefStoreErrorView::Backend(t) => "backend: "@ + t,
        }
    }
}

impl RefStoreError {
    /// The message of the error.
    pub fn message(&self) -> (text: String)
        ensures
            text@ == self@.message(),
    {
        match self {
            RefStoreError::NotFound(t) => cat2("ref not found: ", t.as_str()),
            RefStoreError::Conflict { expected, actual } => cat4(
                "CAS conflict: expected ",
                show_oid(expected).as_str(),
                ", actual ",
                show_oid(actual).as_str(),
            ),
            RefStoreError::InvalidName(t) => cat2("invalid ref name: ", t.as_str()),
            RefStoreError::Io(t) => cat2("backend io: ", t.as_str()),
            RefStoreError::Backend(t) => cat2("backend: ", t.as_str()),
        }
    }
}

// ---- Objects ---------------------------------------------------------------

/// An error of the store of objects.
#[derive(Debug, Clone, PartialEq, Eq)]
pub enum ObjectStoreError {
    NotFound(ObjectId),
    Io(String),
    Zlib(String),
    OidMismatch { expected: ObjectId, actual: ObjectId },
    Backend(String),
}

pub enum ObjectStoreErrorView {
    NotFound(ObjectId),
    Io(Seq<char>),
    Zlib(Seq<char>),
    OidMismatch { expected: ObjectId, actual: ObjectId },
    Backend(Seq<char>),
}

impl View for ObjectStoreError {
    type V = ObjectStoreErrorView;

    open spec fn view(&self) -> ObjectStoreErrorView {
        match self {
            ObjectStoreError::NotFound(o) => ObjectStoreErrorView::NotFound(*o),
            ObjectStoreError::Io(t) => ObjectStoreErrorView::Io(t@),
            ObjectStoreError::Zlib(t) => ObjectStoreErrorView::Zlib(t@),
            ObjectStoreError::OidMismatch { expected, actual } => ObjectStoreErrorView::OidMismatch {
                expected: *expected,
                actual: *actual,
            },
            ObjectStoreError::Backend(t) => ObjectStoreErrorView::Backend(t@),
        }
    }
}

impl ObjectStoreErrorView {
    /// The message of the error.
    pub open spec fn message(self) -> Seq<char> {
        match self {
            ObjectStoreErrorView::NotFound(o) => "object not found: "@ + hex(o.bytes@),
            ObjectStoreErrorView::Io(t) => "backend io: "@ + t,
            ObjectStoreErrorView::Zlib(t) => "zlib decode: "@ + t,
            ObjectStoreErrorView::OidMismatch { expected, actual } => "oid mismatch: expected "@
                + hex(expected.bytes@) + ", got "@ + hex(actual.bytes@),
            ObjectStoreErrorView::Backend(t) => "backend error: "@ + t,
        }
    }
}

impl ObjectStoreError {
    /// The message of the error.
    pub fn message(&self) -> (text: String)
        ensures
            text@ == self@.message(),
    {
        match self {
            ObjectStoreError::NotFound(o) => cat2("object not found: ", o.to_hex().as_str()),
            ObjectStoreError::Io(t) => cat2("backend io: ", t.as_str()),
            ObjectStoreError::Zlib(t) => cat2("zlib decode: ", t.as_str()),
            ObjectStoreError::OidMismatch { expected, actual } => cat4(
                "oid mismatch: expected ",
                expected.to_hex().as_str(),
                ", got ",
                actual.to_hex().as_str(),
            ),
            ObjectStoreError::Backend(t) => cat2("backend error: ", t.as_str()),
        }
    }
}

// ---- Service ---------------------------------------------------------------

/// An error of the service.
#[derive(Debug, Clone, PartialEq, Eq)]
pub enum GitError {
    RefStore(RefStoreError),
    ObjectStore(ObjectStoreError),
    Vfs(FsError),
    /// The branch moved between the read of its head and the update.
    ConcurrentCommit { ref_name: String, expected: Option<ObjectId>, actual: Option<ObjectId> },
    PathNotFound(String),
    PathIsDirectory(String),
    CorruptedObject(String),
    InvalidProjectDir(String),
    SubtreeNotFoundInCommit { project_dir: String, commit: ObjectId },
    OidPrefixNotFound { prefix: String },
    AmbiguousOid { prefix: String, count: usize, candidates: String },
    InvalidIgnoreFile { path: String, reason: String },
    IgnoreFileTooLarge { path: String, size: u64, max: u64 },
    Other(String),
}

pub enum GitErrorView {
    RefStore(RefStoreErrorView),
    ObjectStore(ObjectStoreErrorView),
    Vfs(FsErrorView),
    ConcurrentCommit { ref_name: Seq<char>, expected: Option<ObjectId>, actual: Option<ObjectId> },
    PathNotFound(Seq<char>),
    PathIsDirectory(Seq<char>),
    CorruptedObject(Seq<char>),
    InvalidProjectDir(Seq<char>),
    SubtreeNotFoundInCommit { project_dir: Seq<char>, commit: ObjectId },
    OidPrefixNotFound { prefix: Seq<char> },
    AmbiguousOid { prefix: Seq<char>, count: nat, candidates: Seq<char> },
    InvalidIgnoreFile { path: Seq<char>, reason: Seq<char> },
    IgnoreFileTooLarge { path: Seq<char>, size: nat, max: nat },
    Other(Seq<char>),
}

impl View for GitError {
    type V = GitErrorView;

    open spec fn view(&self) -> GitErrorView {
        match self {
            GitError::RefStore(e) => GitErrorView::RefStore(e@),
            GitError::ObjectStore(e) => GitErrorView::ObjectStore(e@),
            GitError::Vfs(e) => GitErrorView::Vfs(e@),
            GitError::ConcurrentCommit { ref_name, expected, actual } => {
                GitErrorView::ConcurrentCommit {
                    ref_name: ref_name@,
                    expected: *expected,
                    actual: *actual,
                }
            },
            GitError::PathNotFound(t) => GitErrorView::PathNotFound(t@),
            GitError::PathIsDirectory(t) => GitErrorView::PathIsDirectory(t@),
            GitError::CorruptedObject(t) => GitErrorView::CorruptedObject(t@),
            GitError::InvalidProjectDir(t) => GitErrorView::InvalidProjectDir(t@),
            GitError::SubtreeNotFoundInCommit { project_dir, commit } => {
                GitErrorView::SubtreeNotFoundInCommit { project_dir: project_dir@, commit: *commit }
            },
            GitError::OidPrefixNotFound { prefix } => GitErrorView::OidPrefixNotFound {
                prefix: prefix@,
            },
            GitError::AmbiguousOid { prefix, count, candidates } => GitErrorView::AmbiguousOid {
                prefix: prefix@,
                count: *count as nat,
                candidates: candidates@,
            },
            GitError::InvalidIgnoreFile { path, reason } => GitErrorView::InvalidIgnoreFile {
                path: path@,
                reason: reason@,
            },
            GitError::IgnoreFileTooLarge { path, size, max } => GitErrorView::IgnoreFileTooLarge {
                path: path@,
                size: *size as nat,
                max: *max as nat,
            },
            GitError::Other(t) => GitErrorView::Other(t@),
        }
    }
}

impl GitErrorView {
    /// The message of the error.
    pub open spec fn message(self) -> Seq<char> {
        match self {
            GitErrorView::RefStore(e) => e.message(),
            GitErrorView::ObjectStore(e) => e.message(),
            GitErrorView::Vfs(FsErrorView::NotFound(t)) => "vfs: not found: "@ + t,
            GitErrorView::Vfs(FsErrorView::Failed(t)) => "vfs: "@ + t,
            GitErrorView::ConcurrentCommit { ref_name, expected, actual } => (
            "concurrent commit on "@ + ref_name + ": expected "@) + shown_oid(expected)
                + ", actual "@ + shown_oid(actual),
            GitErrorView::PathNotFound(t) => "path not found: "@ + t,
            GitErrorView::PathIsDirectory(t) => "path is a directory: "@ + t,
            GitErrorView::CorruptedObject(t) => "corrupted object: "@ + t,
            GitErrorView::InvalidProjectDir(t) => "invalid project_dir: "@ + t,
            GitErrorView::SubtreeNotFoundInCommit { project_dir, commit } => "subtree "@
                + project_dir + " not found in commit "@ + hex(commit.bytes@),
            GitErrorView::OidPrefixNotFound { prefix } => "no commit matches oid prefix "@ + prefix,
            GitErrorView::AmbiguousOid { prefix, count, candidates } => ("ambiguous oid prefix "@
                + prefix + ": "@) + decimal(count) + " candidates: "@ + candidates,
            GitErrorView::InvalidIgnoreFile { path, reason } => "invalid ignore file "@ + path
                + ": "@ + reason,
            GitErrorView::IgnoreFileTooLarge { path, size, max } => ("ignore file "@ + path
                + " is too large: "@) + decimal(size) + " bytes, at most "@ + decimal(max),
            GitErrorView::Other(t) => t,
        }
    }
}

impl GitError {
    /// The message of the error.
    pub fn message(&self) -> (text: String)
        ensures
            text@ == self@.message(),
    {
        match self {
            GitError::RefStore(e) => e.message(),
            GitError::ObjectStore(e) => e.message(),
            GitError::Vfs(FsError::NotFound(t)) => cat2("vfs: not found: ", t.as_str()),
            GitError::Vfs(FsError::Failed(t)) => cat2("vfs: ", t.as_str()),
            GitError::ConcurrentCommit { ref_name, expected, actual } => cat4(
                cat3("concurrent commit on ", ref_name.as_str(), ": expected ").as_str(),
                show_oid(expected).as_str(),
                ", actual ",
                show_oid(actual).as_str(),
            ),
            GitError::PathNotFound(t) => cat2("path not found: ", t.as_str()),
            GitError::PathIsDirectory(t) => cat2("path is a directory: ", t.as_str()),
            GitError::CorruptedObject(t) => cat2("corrupted object: ", t.as_str()),
            GitError::InvalidProjectDir(t) => cat2("invalid project_dir: ", t.as_str()),
            GitError::SubtreeNotFoundInCommit { project_dir, commit } => cat4(
                "subtree ",
                project_dir.as_str(),
                " not found in commit ",
                commit.to_hex().as_str(),
            ),
            GitError::OidPrefixNotFound { prefix } => cat2(
                "no commit matches oid prefix ",
                prefix.as_str(),
            ),
            GitError::AmbiguousOid { prefix, count, candidates } => cat4(
                cat3("ambiguous oid prefix ", prefix.as_str(), ": ").as_str(),
                decimal_text(*count as u64).as_str(),
                " candidates: ",
                candidates.as_str(),
            ),
            GitError::InvalidIgnoreFile { path, reason } => cat4(
                "invalid ignore file ",
                path.as_str(),
                ": ",
                reason.as_str(),
            ),
            GitError::IgnoreFileTooLarge { path, size, max } => cat4(
                cat3("ignore file ", path.as_str(), " is too large: ").as_str(),
                decimal_text(*size).as_str(),
                " bytes, at most ",
                decimal_text(*max).as_str(),
            ),
            GitError::Other(t) => t.clone(),
        }
    }
}

/// The message of a failed read of an identifier.
pub open spec fn hex_error_message(e: HexError) -> Seq<char> {
    match e {
        HexError::Length(n) => "A hash sized "@ + decimal(n as nat)
            + " hexadecimal characters is invalid"@,
        HexError::Digit => "Invalid character encountered"@,
    }
}

/// The message of a failed read of an identifier.
pub fn hex_error_text(e: HexError) -> (text: String)
    ensures
        text@ == hex_error_message(e),
{
    match e {
        HexError::Length(n) => cat3(
            "A hash sized ",
            decimal_text(n as u64).as_str(),
            " hexadecimal characters is invalid",
        ),
        HexError::Digit => "Invalid character encountered".to_owned(),
    }
}

} // verus!
