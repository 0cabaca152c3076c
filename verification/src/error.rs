//! Errors of the scanning pipeline.

use vstd::prelude::*;
use crate::text::{copy_of, joined};

verus! {

/// What can go wrong; the payload is the message of the underlying failure, or the file
/// extension that is not supported.
#[derive(Clone, Debug)]
pub enum ScanTextError {
    Io(String),
    ImageLoad(String),
    UnsupportedFormat(String),
    Ocr(String),
    PdfGen(String),
    NoFonts,
    Serialize(String),
}

impl ScanTextError {
    /// The message of an error.
    pub open spec fn text(self) -> Seq<char> {
        match self {
            ScanTextError::Io(e) => "I/O error: "@ + e@,
            ScanTextError::ImageLoad(e) => "Image load error: "@ + e@,
            ScanTextError::UnsupportedFormat(e) => "Unsupported file format: ."@ + e@,
            ScanTextError::Ocr(e) => "OCR error: "@ + e@,
            ScanTextError::PdfGen(e) => "PDF generation error: "@ + e@,
            ScanTextError::NoFonts => "No fonts found on the system.\nFor Microsoft fonts:  apt install ttf-mscorefonts-installer\nFor LaTeX fonts:      apt install fonts-lmodern texlive-fonts-recommended\nOr supply --font-dir pointing at a directory of .ttf / .otf files."@,
            ScanTextError::Serialize(e) => "Serialization error: "@ + e@,
        }
    }

    /// The message of an error.
    pub fn message(&self) -> (r: String)
        ensures
            r@ == self.text(),
    {
        match self {
            ScanTextError::Io(e) => joined("I/O error: ", e.as_str()),
            ScanTextError::ImageLoad(e) => joined("Image load error: ", e.as_str()),
            ScanTextError::UnsupportedFormat(e) => joined("Unsupported file format: .", e.as_str()),
            ScanTextError::Ocr(e) => joined("OCR error: ", e.as_str()),
            ScanTextError::PdfGen(e) => joined("PDF generation error: ", e.as_str()),
            ScanTextError::NoFonts => copy_of(
                "No fonts found on the system.\nFor Microsoft fonts:  apt install ttf-mscorefonts-installer\nFor LaTeX fonts:      apt install fonts-lmodern texlive-fonts-recommended\nOr supply --font-dir pointing at a directory of .ttf / .otf files.",
            ),
            ScanTextError::Serialize(e) => joined("Serialization error: ", e.as_str()),
        }
    }
}

} // verus!
