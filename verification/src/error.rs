use vstd::prelude::*;

verus! {

/// Errors reported by the repository operations.
#[derive(Debug)]
pub enum Error {
    Io(String),
    Workspace(String),
    Repository(String),
    InvalidData(String),
    Unknown(String),
}

/// `e` is an error of the repository with message `msg`.
pub open spec fn repository_error(e: Error, msg: Seq<char>) -> bool {
    e matches Error::Repository(s) && s@ == msg
}

/// `e` is an error of the workspace with message `msg`.
pub open spec fn workspace_error(e: Error, msg: Seq<char>) -> bool {
    e matches Error::Workspace(s) && s@ == msg
}

/// `e` is an input or output error with message `msg`.
pub open spec fn io_error(e: Error, msg: Seq<char>) -> bool {
    e matches Error::Io(s) && s@ == msg
}

/// How an error reads: a tag for its kind, then its message.
pub open spec fn error_text(e: Error) -> Seq<char> {
    match e {
        Error::Io(s) => seq!['(', 'i', 'o', ')'] + s@,
        Error::Workspace(s) => seq!['(', 'w', 'o', 'r', 'k', 's', 'p', 'a', 'c', 'e', ')'] + s@,
        Error::Repository(s) => seq!['(', 'r', 'e', 'p', 'o', 's', 'i', 't', 'o', 'r', 'y', ')'] + s@,
        Error::InvalidData(s) => seq!['I', 'n', 'v', 'a', 'l', 'i', 'd', ' ', 'd', 'a', 't', 'a', ':', ' '] + s@,
        Error::Unknown(s) => seq!['(', 'u', 'n', 'k', 'n', 'o', 'w', 'n', ')'] + s@,
    }
}

impl Error {
    /// The text of the error: a tag for its kind, then its message.
    pub fn to_string(&self) -> (res: String)
        ensures
            res@ == error_text(*self),
    {
        proof {
            reveal_strlit("(io)");
            reveal_strlit("(workspace)");
            reveal_strlit("(repository)");
            reveal_strlit("Invalid data: ");
            reveal_strlit("(unknown)");
        }
        match self {
            Error::Io(s) => String::from_str("(io)").concat(s.as_str()),
            Error::Workspace(s) => String::from_str("(workspace)").concat(s.as_str()),
            Error::Repository(s) => String::from_str("(repository)").concat(s.as_str()),
            Error::InvalidData(s) => String::from_str("Invalid data: ").concat(s.as_str()),
            Error::Unknown(s) => String::from_str("(unknown)").concat(s.as_str()),
        }
    }
}

} // verus!
