//! What can go wrong.
use vstd::prelude::*;

verus! {

/// An error. What the operating system or a parser said comes as its text.
#[derive(Debug)]
pub enum Error {
    Git(String),
    GitProcess { code: i32, message: String },
    NotWorktree,
    WorktreeNotFound(String),
    AmbiguousWorktree(String),
    CrossVolume,
    UnsupportedFilesystem(String),
    UnsafePath(Vec<u8>),
    Clone { path: Vec<u8>, source: String },
    Message(String),
    Io(String),
    Json(String),
}

/// What an error says.
pub enum Failure {
    Git(Seq<char>),
    GitProcess { code: i32, message: Seq<char> },
    NotWorktree,
    WorktreeNotFound(Seq<char>),
    AmbiguousWorktree(Seq<char>),
    CrossVolume,
    UnsupportedFilesystem(Seq<char>),
    UnsafePath(Seq<u8>),
    Clone { path: Seq<u8>, source: Seq<char> },
    Message(Seq<char>),
    Io(Seq<char>),
    Json(Seq<char>),
}

impl View for Error {
    type V = Failure;

    open spec fn view(&self) -> Failure {
        match *self {
            Error::Git(text) => Failure::Git(text@),
            Error::GitProcess { code, message } => Failure::GitProcess { code, message: message@ },
            Error::NotWorktree => Failure::NotWorktree,
            Error::WorktreeNotFound(text) => Failure::WorktreeNotFound(text@),
            Error::AmbiguousWorktree(text) => Failure::AmbiguousWorktree(text@),
            Error::CrossVolume => Failure::CrossVolume,
            Error::UnsupportedFilesystem(text) => Failure::UnsupportedFilesystem(text@),
            Error::UnsafePath(path) => Failure::UnsafePath(path@),
            Error::Clone { path, source } => Failure::Clone { path: path@, source: source@ },
            Error::Message(text) => Failure::Message(text@),
            Error::Io(text) => Failure::Io(text@),
            Error::Json(text) => Failure::Json(text@),
        }
    }
}

/// What an error says, where there is one.
pub open spec fn optional(error: Option<Error>) -> Option<Failure> {
    match error {
        Some(error) => Some(error@),
        None => None,
    }
}

/// An error that is only its message.
pub fn message(text: &str) -> (error: Error)
    ensures
        error@ == Failure::Message(text@),
{
    Error::Message(text.to_owned())
}

/// Errors are seen as they are, and of different kinds as different.
pub proof fn errors_are_seen_as_they_are(error: Error)
    ensures
        error matches Error::Git(text) ==> error@ == Failure::Git(text@),
        error matches Error::WorktreeNotFound(text) ==> error@ == Failure::WorktreeNotFound(text@),
        error matches Error::AmbiguousWorktree(text) ==> error@ == Failure::AmbiguousWorktree(
            text@,
        ),
        error matches Error::UnsupportedFilesystem(text) ==> error@
            == Failure::UnsupportedFilesystem(text@),
        error matches Error::UnsafePath(path) ==> error@ == Failure::UnsafePath(path@),
        error matches Error::Message(text) ==> error@ == Failure::Message(text@),
        error matches Error::Io(text) ==> error@ == Failure::Io(text@),
        error matches Error::Json(text) ==> error@ == Failure::Json(text@),
        error is NotWorktree ==> error@ == Failure::NotWorktree,
        error is CrossVolume ==> error@ == Failure::CrossVolume,
        error matches Error::GitProcess { code, message } ==> error@ == (Failure::GitProcess {
            code,
            message: message@,
        }),
        error matches Error::Clone { path, source } ==> error@ == (Failure::Clone {
            path: path@,
            source: source@,
        }),
{
}

} // verus!
