use vstd::prelude::*;

verus! {

/// The ways an operation of the store or of a codec can fail.
#[derive(Debug, Clone, Copy, PartialEq, Eq, Structural)]
pub enum GitError {
    /// No stored object answers to the requested digest.
    NotFound,
    /// Bytes that do not follow the expected layout.
    FormatError,
    /// Text that is not valid UTF-8 where UTF-8 is required.
    EncodingError,
    /// An underlying read, write or create failed.
    IoError,
}

pub type GitResult<T> = Result<T, GitError>;

} // verus!
