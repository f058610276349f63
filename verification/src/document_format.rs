//! The structure of a document as paragraphs and headings of styled text.
use vstd::prelude::*;

verus! {

/// A document: its contents, in order.
#[derive(Debug)]
pub struct Document {
    pub root: Vec<Content>,
}

/// A piece of the contents of a document.
#[derive(Debug)]
pub enum Content {
    /// A paragraph made of elements of text.
    Paragraph { contents: Vec<TextElement> },
    /// A heading made of one element of text.
    Heading { content: TextElement },
}

/// An element of text: its style, its language and the text itself.
#[derive(Debug, Clone)]
pub struct TextElement {
    pub style: Style,
    pub language: String,
    pub text: String,
}

/// The style of an element of text: its color, the style of its font and its font size.
#[derive(Debug, Clone)]
pub struct Style {
    pub color: String,
    pub font_style: String,
    pub font_size: u32,
}

} // verus!
