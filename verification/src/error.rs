use vstd::prelude::*;

verus! {

/// The errors of serving a directory.
pub enum ServeError {
    PathTraversal(String),
    NotFound(String),
    /// An I/O failure, holding the text of the underlying error.
    Io(String),
}

/// The message shown for an error.
pub open spec fn error_message(e: ServeError) -> Seq<char> {
    match e {
        ServeError::PathTraversal(p) => "path traversal attempt: "@ + p@,
        ServeError::NotFound(p) => "not found: "@ + p@,
        ServeError::Io(m) => "IO error: "@ + m@,
    }
}

impl ServeError {
    /// The human-readable message of the error.
    pub fn message(&self) -> (m: String)
        ensures
            m@ == error_message(*self),
    {
        match self {
            ServeError::PathTraversal(p) => String::from_str("path traversal attempt: ").concat(p.as_str()),
            ServeError::NotFound(p) => String::from_str("not found: ").concat(p.as_str()),
            ServeError::Io(msg) => String::from_str("IO error: ").concat(msg.as_str()),
        }
    }
}

/// The result of an operation that can fail with a `ServeError`.
pub type Result<T> = core::result::Result<T, ServeError>;

} // verus!
