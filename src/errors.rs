//! The errors of the library.

use vstd::prelude::*;

verus! {

/// What went wrong.
#[derive(Clone, Copy, Debug, PartialEq, Eq, Structural)]
pub enum Error {
    /// A command-line token is neither a path nor a page range.
    InputParse,
    /// No output file could be determined.
    NoOutput,
    /// No input was given.
    NoInput,
    /// A source document could not be read.
    Load,
    /// A document has no trailer information dictionary.
    MissingInfo,
    /// A requested page does not exist, or its object is missing.
    MissingPage,
    /// A page carries no `MediaBox` of its own.
    MissingMediaBox,
    /// A document has no pages.
    NoPages,
    /// An object is not of the kind that was asked for.
    WrongKind,
    /// A destination document has run out of object numbers.
    TooManyObjects,
    /// A destination could not be written.
    Save,
    /// A string is not a date in the layout of a document's trailer.
    BadDate,
    /// The command is not available.
    NotImplemented,
}

impl Error {
    /// A readable description of the error.
    pub fn message(&self) -> &'static str {
        match self {
            Error::InputParse => "Couldn't parse input element",
            Error::NoOutput => "No output file supplied",
            Error::NoInput => "No input supplied",
            Error::Load => "Couldn't load document",
            Error::MissingInfo => "Couldn't identify pdf info",
            Error::MissingPage => "Couldn't locate page object",
            Error::MissingMediaBox => "Couldn't get media box",
            Error::NoPages => "No pages in pdf",
            Error::WrongKind => "Object is not of the expected kind",
            Error::TooManyObjects => "Too many objects in the destination document",
            Error::Save => "Couldn't save file",
            Error::BadDate => "Couldn't parse date",
            Error::NotImplemented => "Not implemented yet",
        }
    }
}

/// Turns a missing value or a foreign error into an [`Error`] of this library.
pub trait ErrorChainable<T>: Sized {
    /// What [`ErrorChainable::error`] returns.
    spec fn chained(self, e: Error) -> Result<T, Error>;

    fn error(self, e: Error) -> (r: Result<T, Error>)
        ensures
            r == self.chained(e),
    ;
}

impl<T> ErrorChainable<T> for Option<T> {
    open spec fn chained(self, e: Error) -> Result<T, Error> {
        match self {
            Some(v) => Ok(v),
            None => Err(e),
        }
    }

    fn error(self, e: Error) -> (r: Result<T, Error>) {
        match self {
            Some(v) => Ok(v),
            None => Err(e),
        }
    }
}

impl<T, E> ErrorChainable<T> for Result<T, E> {
    open spec fn chained(self, e: Error) -> Result<T, Error> {
        match self {
            Ok(v) => Ok(v),
            Err(_) => Err(e),
        }
    }

    fn error(self, e: Error) -> (r: Result<T, Error>) {
        match self {
            Ok(v) => Ok(v),
            Err(_) => Err(e),
        }
    }
}

} // verus!
