use vstd::prelude::*;

verus! {

/// Error variants returned by the DDS reader, writer and codecs.
#[derive(Debug, Clone, PartialEq, Eq)]
pub enum DdsError {
    /// The byte stream is malformed (bad magic, truncated header,
    /// pixel array runs past the end of the buffer, ...).
    InvalidData(String),
    /// The byte stream uses a feature this crate does not implement.
    Unsupported(String),
}

/// `Result` alias used by every fallible function of the crate.
pub type Result<T> = core::result::Result<T, DdsError>;

impl DdsError {
    /// Build a [`DdsError::InvalidData`] carrying `msg`.
    pub fn invalid(msg: &str) -> (e: Self)
        ensures
            e matches DdsError::InvalidData(m) && m@ == msg@,
    {
        DdsError::InvalidData(msg.to_owned())
    }

    /// Build a [`DdsError::Unsupported`] carrying `msg`.
    pub fn unsupported(msg: &str) -> (e: Self)
        ensures
            e matches DdsError::Unsupported(m) && m@ == msg@,
    {
        DdsError::Unsupported(msg.to_owned())
    }

    /// The message carried by the error, whichever its kind.
    pub fn message(&self) -> (s: &str)
        ensures
            s@ == (match self {
                DdsError::InvalidData(m) => m@,
                DdsError::Unsupported(m) => m@,
            }),
    {
        match self {
            DdsError::InvalidData(m) => m.as_str(),
            DdsError::Unsupported(m) => m.as_str(),
        }
    }
}

/// True when the result is an `InvalidData` error.
pub open spec fn is_invalid<T>(r: Result<T>) -> bool {
    r matches Err(DdsError::InvalidData(_))
}

/// True when the result is an `Unsupported` error.
pub open spec fn is_unsupported<T>(r: Result<T>) -> bool {
    r matches Err(DdsError::Unsupported(_))
}

} // verus!
