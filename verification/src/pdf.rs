//! Errors met while reading a PDF document.

use vstd::prelude::*;

verus! {

/// An error met while binding PDFium, loading a document or reading a
/// page, described by its message.
#[derive(Debug)]
pub struct PdfError {
    pub message: String,
}

impl PdfError {
    /// The message that describes the error.
    pub fn to_string(&self) -> (s: String)
        ensures
            s@ == self.message@,
    {
        self.message.clone()
    }
}

} // verus!
