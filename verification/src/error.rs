use vstd::prelude::*;

verus! {

/// The error kinds the store reports.
///
/// `IoError` is never produced by the verified engine itself, which works on
/// an in-memory image of the log; an embedding that does real file I/O maps
/// its failures to this variant.
#[derive(Clone, Copy, Debug, PartialEq, Eq, Structural)]
pub enum KvsError {
    /// A scan of the log hit a partial frame: a truncated length prefix or a
    /// truncated payload, the mark of a corrupt or incompletely written log.
    UnexpectedEOF,
    /// The log file could not be opened, read, written, flushed, or replaced.
    IoError,
    /// An explicit remove targeted a key that is not currently present.
    KeyNotFound,
    /// Bytes do not decode to a valid record, or a record is too large to fit
    /// the frame format.
    SerdeError,
}

impl KvsError {
    /// A short description of the error, suitable for display by a caller.
    pub fn message(&self) -> (r: &'static str)
        ensures
            r@.len() > 0,
    {
        proof {
            reveal_strlit("unexpected end of log");
            reveal_strlit("i/o error");
            reveal_strlit("key not found");
            reveal_strlit("invalid record encoding");
        }
        match self {
            KvsError::UnexpectedEOF => "unexpected end of log",
            KvsError::IoError => "i/o error",
            KvsError::KeyNotFound => "key not found",
            KvsError::SerdeError => "invalid record encoding",
        }
    }
}

} // verus!
