use vstd::prelude::*;

verus! {

/// Why a run of the program has failed.
#[derive(Debug, Clone, PartialEq, Eq)]
pub enum Error {
    /// A file could not be opened or read.
    Io,
    /// The standard streams could not be read or written.
    RawIo,
    /// An argument that was to be a number is none.
    ParseInt,
    /// The file at `path` could not be read.
    Read { path: String },
    /// The text in the file at `path` is no problem: see `source`.
    Parse { source: crate::parser::errors::Error, path: String },
    /// The board that was asked for is larger than 35 cells a side.
    InvalidSudokuDimensions,
}

impl Error {
    /// The status with which the program ends after this error: 2 where
    /// a text is no problem or an argument is no number, 100 where a file
    /// could not be opened, read or decoded or a stream failed, 126 where
    /// the board asked for is too large. The statuses 0, 10 and 20 are kept for the verdicts, and 1 for
    /// errors in the arguments.
    pub open spec fn spec_code(&self) -> i32 {
        match self {
            Error::Read { .. } => 100i32,
            Error::Parse { .. } => 2i32,
            Error::ParseInt => 2i32,
            Error::Io => 100i32,
            Error::RawIo => 100i32,
            Error::InvalidSudokuDimensions => 126i32,
        }
    }

    #[verifier::when_used_as_spec(spec_code)]
    pub fn code(&self) -> (code: i32)
        ensures
            code == self.spec_code(),
    {
        match self {
            Error::Read { .. } => 100,
            Error::Parse { .. } => 2,
            Error::ParseInt => 2,
            Error::Io => 100,
            Error::RawIo => 100,
            Error::InvalidSudokuDimensions => 126,
        }
    }
}

} // verus!
