use vstd::prelude::*;

verus! {

/// Everything that can stop an ingest.
pub enum SQLMDError {
    /// The SQL engine reported a failure.
    SQLError(String),
    /// A pipeline task could not be joined.
    JointError(String),
    /// A file could not be opened or read.
    IOError(String),
    /// A header, step or atom field is not a number; holds the text.
    ParseError(String),
    /// A comment line or its `iter:` marker is missing; holds what is missing.
    NotFoundError(String),
    /// The input ended inside a frame.
    TruncatedFrame { step: i64, expected: i64, found: i64 },
}

/// Model of an `SQLMDError`.
pub enum Fault {
    Sql(Seq<char>),
    Join(Seq<char>),
    Io(Seq<char>),
    Parse(Seq<char>),
    NotFound(Seq<char>),
    Truncated { step: i64, expected: i64, found: i64 },
}

impl View for SQLMDError {
    type V = Fault;

    open spec fn view(&self) -> Fault {
        match self {
            SQLMDError::SQLError(m) => Fault::Sql(m@),
            SQLMDError::JointError(m) => Fault::Join(m@),
            SQLMDError::IOError(m) => Fault::Io(m@),
            SQLMDError::ParseError(m) => Fault::Parse(m@),
            SQLMDError::NotFoundError(m) => Fault::NotFound(m@),
            SQLMDError::TruncatedFrame { step, expected, found } => Fault::Truncated {
                step: *step,
                expected: *expected,
                found: *found,
            },
        }
    }
}

} // verus!
