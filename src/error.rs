use vstd::prelude::*;

verus! {

/// The ways an operation on a store can fail.
#[derive(Debug)]
pub enum YAVSError {
    /// The byte stream does not begin with the format's magic.
    InvalidFile,
    /// The magic matched but the version tag is not the supported one.
    VersionMismatch,
    /// Reading or writing the byte stream failed, or it ended early.
    IoError(String),
    /// An embedding's length differs from the store's dimension.
    DimMismatch,
}

/// The kind of a failure, without the detail an I/O error carries.
pub enum ErrorKind {
    InvalidFile,
    VersionMismatch,
    Io,
    DimMismatch,
}

impl YAVSError {
    pub open spec fn kind(&self) -> ErrorKind {
        match self {
            YAVSError::InvalidFile => ErrorKind::InvalidFile,
            YAVSError::VersionMismatch => ErrorKind::VersionMismatch,
            YAVSError::IoError(_) => ErrorKind::Io,
            YAVSError::DimMismatch => ErrorKind::DimMismatch,
        }
    }

}

} // verus!
