//! The errors that the library's rules can reject an input with.
use vstd::prelude::*;

verus! {

/// Why a request was refused.
#[derive(Debug, PartialEq, Eq)]
pub enum CoverError {
    /// A template id holds a character outside `[A-Za-z0-9_-]`, or is empty where one is required.
    InvalidTemplateId,
    /// The id in the path and the id in the template body differ.
    TemplateIdMismatch { path: String, body: String },
    /// The template defines named formats and none has this name.
    UnknownFormat(String),
    /// The template defines no formats and no variant has this name.
    UnknownVariant(String),
    /// A requested output file name has no usable final component or holds unsafe characters.
    InvalidOutputFilename,
    /// A requested output file name does not end in `.png`, `.jpg` or `.jpeg`.
    UnsupportedOutputExtension,
    /// No candidate for an asset exists inside the allowed roots.
    AssetNotFound(String),
    /// A legacy template name carries none of the known format suffixes.
    UnknownLegacyTemplate(String),
    /// A font file name has no usable final component, or sanitises to a hidden or empty name.
    InvalidFontFilename,
    /// A font file name does not end in `.ttf`, `.otf`, `.ttc` or `.otc`.
    UnsupportedFontExtension,
    /// An uploaded font is empty or larger than the upload limit.
    FontSizeOutOfRange,
    /// A batch holds more requests than the batch limit.
    BatchTooLarge,
    /// Even the lowest JPEG quality does not fit the byte budget.
    JpegSizeLimitUnreachable { best_len: usize, max_bytes: usize },
    /// The JPEG encoder refused the image (a side is zero or above 65535
    /// pixels); the text is the encoder's own message.
    JpegEncoding(String),
}

} // verus!
