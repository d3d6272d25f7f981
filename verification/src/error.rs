//! The errors of loading and saving documents.
use vstd::prelude::*;

verus! {

/// Why a document, or a part of it, could not be loaded or saved.
#[derive(Debug, Clone, PartialEq, Eq)]
pub enum XoppError {
    /// The bytes are no valid gzip stream.
    Decompression,
    /// The data could not be compressed.
    Compression,
    /// The decompressed bytes are no valid UTF-8.
    InvalidUtf8,
    /// The text is no well-formed XML document; the message describes why.
    InvalidXml { message: String },
    /// The document has no root element.
    MissingRootElement,
    /// A required attribute is missing from the element with the given node id.
    MissingAttribute { node_id: usize, attribute: String },
    /// An attribute of the element with the given node id holds a value
    /// that is not allowed there.
    InvalidAttributeValue { node_id: usize, attribute: String },
    /// A color attribute is neither a known color name nor a hexadecimal
    /// `#RRGGBBAA` value.
    InvalidColorValue,
}

} // verus!
