//! Why a polyglot file could not be built.
use vstd::prelude::*;

verus! {

/// What was wrong with the input of a build.
#[derive(Clone, Copy, Debug, PartialEq, Eq, Structural)]
pub enum PolyglotError {
    /// The MP4 data is too short to hold the header of its first box.
    FtypSize,
    /// The data given to a box operation is too short to hold a box header.
    FtypHeader,
    /// The header of the box that carries the image was not found.
    PngOffset,
    /// The header of the PDF stream object does not fit into the first bytes of
    /// the file.
    PdfObject,
    /// The PDF document has no cross-reference table.
    Xref,
    /// The PDF document has no `startxref` after its cross-reference table.
    StartXref,
    /// The size of the PDF cross-reference table cannot be read.
    XrefCount,
}

impl PolyglotError {
    /// The text that is shown for the error.
    pub open spec fn text(self) -> Seq<char> {
        match self {
            PolyglotError::FtypSize => "Failed to read original ftyp size"@,
            PolyglotError::FtypHeader => "Failed to read ftyp box header"@,
            PolyglotError::PngOffset => "Failed to find PNG offset"@,
            PolyglotError::PdfObject => "PDF object exceeds ftyp buffer"@,
            PolyglotError::Xref => "Failed to find xref"@,
            PolyglotError::StartXref => "Failed to find startxref"@,
            PolyglotError::XrefCount => "Failed to parse xref count"@,
        }
    }

    /// The text that is shown for the error.
    pub fn message(&self) -> (r: &'static str)
        ensures
            r@ == self.text(),
    {
        match self {
            PolyglotError::FtypSize => "Failed to read original ftyp size",
            PolyglotError::FtypHeader => "Failed to read ftyp box header",
            PolyglotError::PngOffset => "Failed to find PNG offset",
            PolyglotError::PdfObject => "PDF object exceeds ftyp buffer",
            PolyglotError::Xref => "Failed to find xref",
            PolyglotError::StartXref => "Failed to find startxref",
            PolyglotError::XrefCount => "Failed to parse xref count",
        }
    }
}

} // verus!
