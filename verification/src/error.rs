//! The library's error type: everything the configuration loader can
//! reject, as plain data.  The surrounding binary wraps these together
//! with its own I/O and source-parse failures.

use vstd::prelude::*;

verus! {

/// The mathematical view of an error.
pub enum ErrorV {
    UnsupportedExpression { description: Seq<char> },
    InvalidKey { description: Seq<char> },
    MissingIdentifier { name: Seq<char> },
    NoExportedExpression,
    Decode { message: Seq<char> },
}

/// Why a configuration script was rejected.
#[derive(Debug)]
pub enum Error {
    /// An expression shape the static evaluator does not support.
    UnsupportedExpression { description: String },
    /// An object literal key that is neither an identifier nor a string.
    InvalidKey { description: String },
    /// `export default` names an identifier with no matching variable.
    MissingIdentifier { name: String },
    /// The module has no default-exported expression.
    NoExportedExpression,
    /// The evaluated value does not fit the configuration model.
    Decode { message: String },
}

impl View for Error {
    type V = ErrorV;

    open spec fn view(&self) -> ErrorV {
        match self {
            Error::UnsupportedExpression { description } => ErrorV::UnsupportedExpression {
                description: description@,
            },
            Error::InvalidKey { description } => ErrorV::InvalidKey { description: description@ },
            Error::MissingIdentifier { name } => ErrorV::MissingIdentifier { name: name@ },
            Error::NoExportedExpression => ErrorV::NoExportedExpression,
            Error::Decode { message } => ErrorV::Decode { message: message@ },
        }
    }
}

} // verus!
