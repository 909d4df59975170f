//! Errors that file system operations report.

use vstd::prelude::*;

verus! {

/// The ways in which an operation on the file system fails.
#[derive(Clone, Debug, PartialEq, Eq)]
pub enum FsError {
    /// A path segment, an index entry or a block does not exist.
    NotFound,
    /// A path segment before the last resolves to a file.
    NotADirectory,
    /// The path ends in a directory where a file is asked for.
    NotAFile,
    /// A directory stands where a file is to be written.
    DirectoryAlreadyExists,
    /// The destination of a move is already taken.
    FileAlreadyExists,
    /// The path is empty, or runs through a file.
    InvalidPath,
    /// A stored node does not say what kind of node it is.
    MissingNodeType,
    /// A stored node is of no kind that is accepted where it was found.
    UnexpectedNodeType,
    /// A ciphertext was not sealed under the key that was offered.
    Decrypt,
    /// The block store failed; the text is the store's own account.
    Store(String),
}

impl FsError {
    /// The text that says what went wrong: for a failure of the block
    /// store, the store's own account.
    pub open spec fn text(self) -> Seq<char> {
        match self {
            FsError::NotFound => "not found"@,
            FsError::NotADirectory => "not a directory"@,
            FsError::NotAFile => "not a file"@,
            FsError::DirectoryAlreadyExists => "directory already exists"@,
            FsError::FileAlreadyExists => "file already exists"@,
            FsError::InvalidPath => "invalid path"@,
            FsError::MissingNodeType => "missing node type"@,
            FsError::UnexpectedNodeType => "unexpected node type"@,
            FsError::Decrypt => "unable to decrypt"@,
            FsError::Store(s) => s@,
        }
    }

    /// The error's message.
    pub fn message(&self) -> (r: String)
        ensures
            r@ == self.text(),
            self matches FsError::Store(s) ==> r == *s,
    {
        match self {
            FsError::NotFound => "not found".to_string(),
            FsError::NotADirectory => "not a directory".to_string(),
            FsError::NotAFile => "not a file".to_string(),
            FsError::DirectoryAlreadyExists => "directory already exists".to_string(),
            FsError::FileAlreadyExists => "file already exists".to_string(),
            FsError::InvalidPath => "invalid path".to_string(),
            FsError::MissingNodeType => "missing node type".to_string(),
            FsError::UnexpectedNodeType => "unexpected node type".to_string(),
            FsError::Decrypt => "unable to decrypt".to_string(),
            FsError::Store(s) => s.clone(),
        }
    }
}

/// Whether a result is a failure of the block store.
pub open spec fn store_failed<T>(r: Result<T, FsError>) -> bool {
    r matches Err(e) && e is Store
}

} // verus!
