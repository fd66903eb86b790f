use vstd::prelude::*;

verus! {

/// The error kinds reported by the library.  Every fallible operation says
/// in its contract exactly which kind it returns on which inputs.
#[derive(Clone, Copy, Debug, PartialEq, Eq, Structural)]
pub enum Error {
    /// A hyperslab request that violates the bounds invariant of the
    /// dataset, or a destination buffer of the wrong size.
    InvalidRequest,
    /// A typed read was asked for with an element width that differs from
    /// the dataset's element width.
    TypeMismatch,
    /// A chunk's stored byte range lies outside the file image.
    IOError,
    /// A filter stage was applied to a buffer whose length is not a
    /// multiple of the element width.
    FilterError,
    /// An element type or width with no registered handler.
    UnsupportedDatatype,
}

impl Error {
    /// A short name for the error kind.
    pub fn describe(&self) -> (s: &'static str)
        ensures
            s@.len() > 0,
    {
        let r = match self {
            Error::InvalidRequest => "invalid request",
            Error::TypeMismatch => "type mismatch",
            Error::IOError => "i/o error",
            Error::FilterError => "filter error",
            Error::UnsupportedDatatype => "unsupported datatype",
        };
        proof {
            reveal_strlit("invalid request");
            reveal_strlit("type mismatch");
            reveal_strlit("i/o error");
            reveal_strlit("filter error");
            reveal_strlit("unsupported datatype");
        }
        r
    }
}

} // verus!
