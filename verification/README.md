# textr

A library that builds PDF documents: pages made of layers of content operations, TrueType
fonts embedded with their character maps and widths, and the writing of all of it into a
store of numbered PDF objects. A `Document` (a list of operations that append pages and
write text) is turned into such a PDF document.

The library under `src/` is written in Verus: each public function states what it returns
or changes, and the properties that relate several functions (what a written document
holds, how a font is found again from its key, that writing is deterministic, ...) are
proof functions checked by Verus.

- `src/pdf_object.rs`: PDF objects, dictionaries, streams and the object store.
- `src/strings.rs`: decimal and hexadecimal texts, and the character helpers.
- `src/font.rs`: font faces read with `owned_ttf_parser`, and the insertion of a font.
- `src/cmap.rs`: glyph tables, character-map blocks and text, width runs.
- `src/pdf.rs`: layers, pages, resources and the `PdfDocument` with `write_all`.
- `src/document.rs`: the `Document` of operations and its conversion.
- `src/timestamp.rs`, `src/error.rs`, `src/traceable_error.rs`: dates and errors.

`app/` holds what is not verified: reading JSON and font files, the conversion of the
object store into `lopdf` objects, saving and optimising the PDF file.
