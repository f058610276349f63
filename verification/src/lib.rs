//! Generation of PDF documents from a high-level description of their contents.
//!
//! The verified core holds the bookkeeping of a PDF document under construction
//! (pages, layers, fonts, object numbering), the encoding of text into glyph
//! identifiers, the font tables written into the document (character maps and
//! glyph widths) and the error types used throughout.
pub mod strings;
pub mod error;
pub mod traceable_error;
pub mod pdf_object;
pub mod font;
pub mod cmap;
pub mod timestamp;
pub mod pdf;
pub mod document;
pub mod document_configuration;
pub mod document_format;
pub mod image_system;
