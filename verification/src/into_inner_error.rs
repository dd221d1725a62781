//! The error of a writer that could not be taken apart.

use vstd::prelude::*;

use crate::error::Error;

verus! {

/// A writer that could not be flushed, and the reason.
#[derive(Debug)]
pub struct IntoInnerError<W> {
    writer: Box<W>,
    error: Error,
}

impl<W> IntoInnerError<W> {
    /// The writer.
    pub closed spec fn spec_writer(&self) -> W {
        *self.writer
    }

    /// The reason.
    pub closed spec fn spec_error(&self) -> Error {
        self.error
    }

    /// A writer and the reason why it could not be flushed.
    pub fn new(writer: W, error: Error) -> (result: IntoInnerError<W>)
        ensures
            result.spec_writer() == writer,
            result.spec_error() == error,
    {
        IntoInnerError { writer: Box::new(writer), error }
    }

    /// The reason.
    pub fn error(&self) -> (error: &Error)
        ensures
            *error == self.spec_error(),
    {
        &self.error
    }

    /// The reason, without the writer.
    pub fn into_error(self) -> (error: Error)
        ensures
            error == self.spec_error(),
    {
        self.error
    }

    /// The writer, with what it did not write yet.
    pub fn into_inner(self) -> (writer: W)
        ensures
            writer == self.spec_writer(),
    {
        *self.writer
    }
}

} // verus!
