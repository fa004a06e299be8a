//! The errors that the library's operations report.
use vstd::prelude::*;
use crate::convert::string_of;
use crate::number::{decimal, usize_decimal};
use crate::path::extend_chars;
use crate::text::chars_of;

verus! {

/// Why an operation failed.
#[derive(Debug)]
pub enum GitError {
    /// The object's header has no NUL terminator, or no space inside it.
    InvalidObjectHeader,
    /// The object's header is not valid UTF-8; the text is std's message for it.
    HeaderNotUtf8(String),
    /// The size in the object's header is not a decimal number that fits a `usize`; the
    /// text is std's message for it.
    InvalidObjectSize(String),
    /// The header's size differs from the number of bytes that follow it.
    MalformedObject { expected: usize, actual: usize },
    /// The header names no known object type.
    UnknownObjectType(String),
    /// The stored bytes are not a zlib stream.
    CorruptObject,
    /// Compressing an object failed.
    CompressionFailed,
    /// A tree entry lacks its space or NUL terminator.
    InvalidTree,
    /// A tree entry's mode or name is not valid UTF-8; the text is std's message for it.
    TreeNotUtf8(String),
    /// An object id that should be hexadecimal is not.
    InvalidHex(String),
    /// A commit has no blank line between headers and message.
    InvalidCommit,
    /// A commit names no tree.
    CommitMissingTree,
    /// A name resolves to no reference.
    UnknownRevision(String),
    /// An object is neither a tree nor a commit.
    NotTreeish,
    /// An object in the history is not a commit.
    NotACommit(String),
    /// A tree entry was expected to name a tree.
    ExpectedTree,
    /// A tree entry was expected to name a blob.
    NotABlob,
    /// The index has no entries.
    EmptyIndex,
    /// A file lies outside the work tree.
    OutsideWorktree,
    /// A reference file lies outside the `.git` directory.
    OutsideGitDir,
    /// No directory from the start upwards holds a `.git` directory.
    NotARepository,
    /// The ignore rules could not be built.
    InvalidIgnoreRules,
}

/// What an error says, with its text as characters.
pub enum ErrorView {
    InvalidObjectHeader,
    HeaderNotUtf8(Seq<char>),
    InvalidObjectSize(Seq<char>),
    MalformedObject { expected: int, actual: int },
    UnknownObjectType(Seq<char>),
    CorruptObject,
    CompressionFailed,
    InvalidTree,
    TreeNotUtf8(Seq<char>),
    InvalidHex(Seq<char>),
    InvalidCommit,
    CommitMissingTree,
    UnknownRevision(Seq<char>),
    NotTreeish,
    NotACommit(Seq<char>),
    ExpectedTree,
    NotABlob,
    EmptyIndex,
    OutsideWorktree,
    OutsideGitDir,
    NotARepository,
    InvalidIgnoreRules,
}

impl View for GitError {
    type V = ErrorView;

    open spec fn view(&self) -> ErrorView {
        match self {
            GitError::InvalidObjectHeader => ErrorView::InvalidObjectHeader,
            GitError::HeaderNotUtf8(m) => ErrorView::HeaderNotUtf8(m@),
            GitError::InvalidObjectSize(m) => ErrorView::InvalidObjectSize(m@),
            GitError::MalformedObject { expected, actual } => ErrorView::MalformedObject {
                expected: *expected as int,
                actual: *actual as int,
            },
            GitError::UnknownObjectType(s) => ErrorView::UnknownObjectType(s@),
            GitError::CorruptObject => ErrorView::CorruptObject,
            GitError::CompressionFailed => ErrorView::CompressionFailed,
            GitError::InvalidTree => ErrorView::InvalidTree,
            GitError::TreeNotUtf8(m) => ErrorView::TreeNotUtf8(m@),
            GitError::InvalidHex(s) => ErrorView::InvalidHex(s@),
            GitError::InvalidCommit => ErrorView::InvalidCommit,
            GitError::CommitMissingTree => ErrorView::CommitMissingTree,
            GitError::UnknownRevision(s) => ErrorView::UnknownRevision(s@),
            GitError::NotTreeish => ErrorView::NotTreeish,
            GitError::NotACommit(s) => ErrorView::NotACommit(s@),
            GitError::ExpectedTree => ErrorView::ExpectedTree,
            GitError::NotABlob => ErrorView::NotABlob,
            GitError::EmptyIndex => ErrorView::EmptyIndex,
            GitError::OutsideWorktree => ErrorView::OutsideWorktree,
            GitError::OutsideGitDir => ErrorView::OutsideGitDir,
            GitError::NotARepository => ErrorView::NotARepository,
            GitError::InvalidIgnoreRules => ErrorView::InvalidIgnoreRules,
        }
    }
}

/// The message an error is reported with.
pub open spec fn error_text(e: ErrorView) -> Seq<char> {
    match e {
        ErrorView::InvalidObjectHeader => "invalid object header"@,
        ErrorView::HeaderNotUtf8(m) => m,
        ErrorView::InvalidObjectSize(m) => m,
        ErrorView::MalformedObject { expected, actual } => "malformed object: expected "@ + decimal(
            expected as nat,
        ) + " bytes, got "@ + decimal(actual as nat),
        ErrorView::UnknownObjectType(s) => "unknown object type: "@ + s,
        ErrorView::CorruptObject => "corrupt object: not a zlib stream"@,
        ErrorView::CompressionFailed => "compressing the object failed"@,
        ErrorView::InvalidTree => "invalid tree object"@,
        ErrorView::TreeNotUtf8(m) => m,
        ErrorView::InvalidHex(s) => "invalid object id: "@ + s,
        ErrorView::InvalidCommit => "invalid commit object"@,
        ErrorView::CommitMissingTree => "commit missing tree"@,
        ErrorView::UnknownRevision(s) => "unknown revision: "@ + s,
        ErrorView::NotTreeish => "not a tree-ish object"@,
        ErrorView::NotACommit(s) => s + " is not a commit"@,
        ErrorView::ExpectedTree => "expected tree object"@,
        ErrorView::NotABlob => "tree entry is not a blob"@,
        ErrorView::EmptyIndex => "nothing to commit (index is empty)"@,
        ErrorView::OutsideWorktree => "file is outside worktree"@,
        ErrorView::OutsideGitDir => "reference file is outside the git directory"@,
        ErrorView::NotARepository => "not inside a git repository"@,
        ErrorView::InvalidIgnoreRules => "invalid ignore rules"@,
    }
}

/// Characters of a string slice appended to a vector.
fn append(out: &mut Vec<char>, s: &str)
    ensures
        final(out)@ == old(out)@ + s@,
{
    let c = chars_of(s);
    extend_chars(out, c.as_slice());
}

impl GitError {
    /// The message the error is reported with.
    pub fn message(&self) -> (res: String)
        ensures
            res@ == error_text(self@),
    {
        match self {
            GitError::InvalidObjectHeader => "invalid object header".to_owned(),
            GitError::HeaderNotUtf8(m) => m.clone(),
            GitError::InvalidObjectSize(m) => m.clone(),
            GitError::MalformedObject { expected, actual } => {
                let mut out: Vec<char> = Vec::new();
                append(&mut out, "malformed object: expected ");
                extend_chars(&mut out, usize_decimal(*expected).as_slice());
                append(&mut out, " bytes, got ");
                extend_chars(&mut out, usize_decimal(*actual).as_slice());
                string_of(out.as_slice())
            },
            GitError::UnknownObjectType(s) => {
                let mut out: Vec<char> = Vec::new();
                append(&mut out, "unknown object type: ");
                append(&mut out, s.as_str());
                string_of(out.as_slice())
            },
            GitError::CorruptObject => "corrupt object: not a zlib stream".to_owned(),
            GitError::CompressionFailed => "compressing the object failed".to_owned(),
            GitError::InvalidTree => "invalid tree object".to_owned(),
            GitError::TreeNotUtf8(m) => m.clone(),
            GitError::InvalidHex(s) => {
                let mut out: Vec<char> = Vec::new();
                append(&mut out, "invalid object id: ");
                append(&mut out, s.as_str());
                string_of(out.as_slice())
            },
            GitError::InvalidCommit => "invalid commit object".to_owned(),
            GitError::CommitMissingTree => "commit missing tree".to_owned(),
            GitError::UnknownRevision(s) => {
                let mut out: Vec<char> = Vec::new();
                append(&mut out, "unknown revision: ");
                append(&mut out, s.as_str());
                string_of(out.as_slice())
            },
            GitError::NotTreeish => "not a tree-ish object".to_owned(),
            GitError::NotACommit(s) => {
                let mut out: Vec<char> = Vec::new();
                append(&mut out, s.as_str());
                append(&mut out, " is not a commit");
                string_of(out.as_slice())
            },
            GitError::ExpectedTree => "expected tree object".to_owned(),
            GitError::NotABlob => "tree entry is not a blob".to_owned(),
            GitError::EmptyIndex => "nothing to commit (index is empty)".to_owned(),
            GitError::OutsideWorktree => "file is outside worktree".to_owned(),
            GitError::OutsideGitDir => "reference file is outside the git directory".to_owned(),
            GitError::NotARepository => "not inside a git repository".to_owned(),
            GitError::InvalidIgnoreRules => "invalid ignore rules".to_owned(),
        }
    }
}

} // verus!
