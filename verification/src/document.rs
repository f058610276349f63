//! The `Document`: a document identifier, an instance identifier and the operations that
//! build a PDF document (writing text, appending pages), carried out in order onto a
//! `PdfDocument`.
//!
//! Real numbers (colors, positions, sizes) are carried as the bit patterns of
//! single-precision values.
use vstd::prelude::*;
use crate::error::{context_error_message, ContextError};
use crate::font::{face_parses, face_parsing_error_text, TtfFontFace};
use crate::pdf::{font_key, nfc, page_with_operations, text_glyphs, text_operations, LayerModel, PdfDocument};
use crate::pdf_object::{ascii, ascii_bytes, utf8, OperandModel, bytes_less, bytes_lt, lemma_bytes_lt_irreflexive, lemma_bytes_lt_total, lemma_bytes_lt_transitive, ObjectId, Obj, OperationModel, Real};
use crate::strings::{chars_to_string, decimal, decimal_chars, push_chars, push_str, str_chars};

verus! {

/// An operation needed to construct a document.
#[derive(Debug)]
pub enum Operation {
    /// A piece of text to be written: its color, position (in millimeters), text, font
    /// size and the index of its font (in the order in which the fonts were loaded).
    WriteUnicodeText { color: [u32; 3], position: [u32; 2], text_string: String, font_size: u32, font_index: usize },
    /// A new page of the given width and height (in millimeters) to be appended.
    AppendNewPage { page_width: u32, page_height: u32 },
}

/// The mathematical value of an operation.
pub enum OperationView {
    WriteUnicodeText { color: [u32; 3], position: [u32; 2], text: Seq<char>, font_size: u32, font_index: usize },
    AppendNewPage { page_width: u32, page_height: u32 },
}

impl View for Operation {
    type V = OperationView;

    open spec fn view(&self) -> OperationView {
        match self {
            Operation::WriteUnicodeText { color, position, text_string, font_size, font_index } => OperationView::WriteUnicodeText {
                color: *color,
                position: *position,
                text: text_string@,
                font_size: *font_size,
                font_index: *font_index,
            },
            Operation::AppendNewPage { page_width, page_height } => OperationView::AppendNewPage {
                page_width: *page_width,
                page_height: *page_height,
            },
        }
    }
}

/// The views of the operations.
pub open spec fn operations_view(operations: Seq<Operation>) -> Seq<OperationView> {
    Seq::new(operations.len(), |i: int| operations[i]@)
}

/// The document metadata and the operations needed in order to construct it.
#[derive(Debug)]
pub struct Document {
    /// The unique identifier of the document (to be paired with the instance identifier).
    pub document_id: String,
    /// The unique identifier of the instance.
    pub instance_id: String,
    /// The operations needed to construct the document, in order.
    pub operations: Vec<Operation>,
}

/// The number of pages that the operations append.
pub open spec fn page_count(operations: Seq<OperationView>) -> nat
    decreases operations.len(),
{
    if operations.len() == 0 {
        0
    } else {
        page_count(operations.drop_last()) + if operations.last() is AppendNewPage {
            1nat
        } else {
            0nat
        }
    }
}

/// The operations can be carried out with the given number of fonts: each text is written
/// after a page was appended, in a font that was loaded.
pub open spec fn operations_valid(operations: Seq<OperationView>, font_count: nat) -> bool {
    forall|i: int|
        0 <= i < operations.len() ==> (#[trigger] operations[i] matches OperationView::WriteUnicodeText { font_index, .. }
            ==> font_index < font_count && page_count(operations.take(i)) > 0)
}

/// The message of the error that converting the operations with the given number of
/// fonts stops at: the first text written in a font that is not loaded, or before any
/// page was appended; none if every operation can be carried out.
pub open spec fn operations_error(operations: Seq<OperationView>, font_count: nat) -> Option<Seq<char>>
    decreases operations.len(),
{
    if operations.len() == 0 {
        None
    } else {
        match operations_error(operations.drop_last(), font_count) {
            Some(message) => Some(message),
            None => match operations.last() {
                OperationView::WriteUnicodeText { font_index, .. } => if font_index >= font_count {
                    Some("Failed to find font "@ + decimal(font_index as nat) + " into the fonts map"@)
                } else if page_count(operations.drop_last()) == 0 {
                    Some("Failed to find the page with index 0"@)
                } else {
                    None
                },
                OperationView::AppendNewPage { .. } => None,
            },
        }
    }
}

/// The error that a prefix of the operations stops at is that of all of them.
proof fn lemma_operations_error_prefix(operations: Seq<OperationView>, k: int, font_count: nat)
    requires
        0 <= k <= operations.len(),
        operations_error(operations.take(k), font_count) is Some,
    ensures
        operations_error(operations, font_count) == operations_error(operations.take(k), font_count),
    decreases operations.len() - k,
{
    if k == operations.len() {
        assert(operations.take(k) =~= operations);
    } else {
        assert(operations.take(k + 1).drop_last() =~= operations.take(k));
        lemma_operations_error_prefix(operations, k + 1, font_count);
    }
}

/// The layers of the pages after the operations were carried out, the fonts being parsed
/// from the given data: appending a page adds a page with one empty layer, `Layer0`;
/// writing a text appends the operations of the text to the first layer of the last page.
pub open spec fn document_layers(operations: Seq<OperationView>, fonts: Seq<Seq<u8>>) -> Seq<Seq<LayerModel>>
    decreases operations.len(),
{
    if operations.len() == 0 {
        Seq::empty()
    } else {
        let pages = document_layers(operations.drop_last(), fonts);
        match operations.last() {
            OperationView::AppendNewPage { .. } => pages.push(seq![("Layer0"@, Seq::<OperationModel>::empty())]),
            OperationView::WriteUnicodeText { color, position, text, font_size, font_index } => page_with_operations(
                pages,
                pages.len() - 1,
                0,
                text_operations(font_key(font_index as nat), font_size, position, color, text_glyphs(fonts[font_index as int], nfc(text))),
            ),
        }
    }
}

/// A prefix of operations that can be carried out can be carried out.
proof fn lemma_operations_valid_prefix(operations: Seq<OperationView>, font_count: nat, j: int)
    requires
        operations_valid(operations, font_count),
        0 <= j <= operations.len(),
    ensures
        operations_valid(operations.take(j), font_count),
{
    assert forall|i: int| 0 <= i < operations.take(j).len() implies (#[trigger] operations.take(j)[i] matches OperationView::WriteUnicodeText {
        font_index,
        ..
    } ==> font_index < font_count && page_count(operations.take(j).take(i)) > 0) by {
        assert(operations.take(j)[i] == operations[i]);
        assert(operations.take(j).take(i) =~= operations.take(i));
    }
}

/// Carrying out operations gives one page per appended page, each with one layer.
proof fn lemma_document_layers_shape(operations: Seq<OperationView>, fonts: Seq<Seq<u8>>)
    requires
        operations_valid(operations, fonts.len()),
    ensures
        document_layers(operations, fonts).len() == page_count(operations),
        forall|q: int| 0 <= q < page_count(operations) ==> (#[trigger] document_layers(operations, fonts)[q]).len() == 1,
    decreases operations.len(),
{
    if operations.len() > 0 {
        let rest = operations.drop_last();
        assert(rest =~= operations.take(operations.len() - 1));
        lemma_operations_valid_prefix(operations, fonts.len(), operations.len() - 1);
        lemma_document_layers_shape(rest, fonts);
        let pages = document_layers(rest, fonts);
        match operations.last() {
            OperationView::AppendNewPage { .. } => {
                assert forall|q: int| 0 <= q < page_count(operations) implies (#[trigger] document_layers(operations, fonts)[q]).len() == 1 by {
                    if q < pages.len() {
                        assert(document_layers(operations, fonts)[q] == pages[q]);
                    }
                }
            },
            OperationView::WriteUnicodeText { .. } => {
                assert(operations[operations.len() - 1] == operations.last());
                assert(page_count(operations.take(operations.len() - 1)) > 0);
            },
        }
    }
}

/// Carrying out more operations keeps the pages and appends to their layers: the layer
/// of each page after a prefix of the operations is a prefix of that layer after all of
/// them.
proof fn lemma_document_layers_prefix(operations: Seq<OperationView>, fonts: Seq<Seq<u8>>, j: int)
    requires
        operations_valid(operations, fonts.len()),
        0 <= j <= operations.len(),
    ensures
        ({
            let all = document_layers(operations, fonts);
            let part = document_layers(operations.take(j), fonts);
            &&& part.len() <= all.len()
            &&& forall|q: int|
                0 <= q < part.len() ==> (#[trigger] all[q])[0].1.len() >= part[q][0].1.len() && all[q][0].1.take(
                    part[q][0].1.len() as int,
                ) == part[q][0].1
        }),
    decreases operations.len() - j,
{
    let all = document_layers(operations, fonts);
    let part = document_layers(operations.take(j), fonts);
    if j == operations.len() {
        assert(operations.take(j) =~= operations);
        assert forall|q: int| 0 <= q < part.len() implies (#[trigger] all[q])[0].1.len() >= part[q][0].1.len() && all[q][0].1.take(
            part[q][0].1.len() as int,
        ) == part[q][0].1 by {
            assert(all[q][0].1.take(part[q][0].1.len() as int) =~= part[q][0].1);
        }
    } else {
        lemma_document_layers_prefix(operations, fonts, j + 1);
        let next_ops = operations.take(j + 1);
        let next = document_layers(next_ops, fonts);
        assert(next_ops.drop_last() =~= operations.take(j));
        assert(next_ops.last() == operations[j]);
        lemma_operations_valid_prefix(operations, fonts.len(), j);
        lemma_document_layers_shape(operations.take(j), fonts);
        assert forall|q: int| 0 <= q < part.len() implies next[q][0].1.len() >= part[q][0].1.len() && #[trigger] next[q][0].1.take(
            part[q][0].1.len() as int,
        ) == part[q][0].1 by {
            match operations[j] {
                OperationView::AppendNewPage { .. } => {
                    assert(next[q] == part[q]);
                    assert(next[q][0].1.take(part[q][0].1.len() as int) =~= part[q][0].1);
                },
                OperationView::WriteUnicodeText { .. } => {
                    assert(operations.take(j) =~= operations.take(j));
                    assert(page_count(operations.take(j)) > 0);
                    assert(part[q].len() == 1);
                    if q == part.len() - 1 {
                        assert(next[q][0].1.take(part[q][0].1.len() as int) =~= part[q][0].1);
                    } else {
                        assert(next[q] == part[q]);
                        assert(next[q][0].1.take(part[q][0].1.len() as int) =~= part[q][0].1);
                    }
                },
            }
        }
        assert forall|q: int| 0 <= q < part.len() implies (#[trigger] all[q])[0].1.len() >= part[q][0].1.len() && all[q][0].1.take(
            part[q][0].1.len() as int,
        ) == part[q][0].1 by {
            assert(next[q][0].1.take(part[q][0].1.len() as int) == part[q][0].1);
            assert(all[q][0].1.take(next[q][0].1.len() as int) == next[q][0].1);
            assert(all[q][0].1.take(part[q][0].1.len() as int) =~= next[q][0].1.take(part[q][0].1.len() as int));
        }
    }
}

/// Each text of a document is written onto the only layer of the page appended last before
/// it: after the operations that layer held, the text object selects the font of the text
/// at its size (`Tf`), moves to the position of the text, its first coordinate then its
/// second in millimeters (`Td`), and sets the color of the text, its three components in
/// order (`rg`); later operations keep these.
pub proof fn lemma_document_text_written(operations: Seq<OperationView>, fonts: Seq<Seq<u8>>, i: int)
    requires
        operations_valid(operations, fonts.len()),
        0 <= i < operations.len(),
        operations[i] is WriteUnicodeText,
    ensures
        ({
            let p = page_count(operations.take(i)) - 1;
            let n = document_layers(operations.take(i), fonts)[p][0].1.len() as int;
            let layer = document_layers(operations, fonts)[p][0].1;
            &&& 0 <= p < document_layers(operations, fonts).len()
            &&& document_layers(operations, fonts)[p].len() == 1
            &&& n + 6 <= layer.len()
            &&& (operations[i] matches OperationView::WriteUnicodeText { color, position, font_size, font_index, .. } ==> {
                &&& layer[n + 1] == ("Tf"@, seq![
                    OperandModel::Name(utf8(font_key(font_index as nat))),
                    OperandModel::Real(Real::Value(font_size)),
                ])
                &&& layer[n + 2] == ("Td"@, seq![
                    OperandModel::Real(Real::Millimeters(position[0])),
                    OperandModel::Real(Real::Millimeters(position[1])),
                ])
                &&& layer[n + 3] == ("rg"@, seq![
                    OperandModel::Real(Real::Value(color[0])),
                    OperandModel::Real(Real::Value(color[1])),
                    OperandModel::Real(Real::Value(color[2])),
                ])
            })
        }),
{
    let before_ops = operations.take(i);
    let after_ops = operations.take(i + 1);
    assert(after_ops.drop_last() =~= before_ops);
    assert(after_ops.last() == operations[i]);
    assert(page_count(before_ops) > 0);
    lemma_operations_valid_prefix(operations, fonts.len(), i);
    lemma_operations_valid_prefix(operations, fonts.len(), i + 1);
    lemma_document_layers_shape(before_ops, fonts);
    lemma_document_layers_shape(after_ops, fonts);
    lemma_document_layers_shape(operations, fonts);
    lemma_document_layers_prefix(operations, fonts, i + 1);
    let before = document_layers(before_ops, fonts);
    let p = page_count(before_ops) - 1;
    match operations[i] {
        OperationView::WriteUnicodeText { color, position, text, font_size, font_index } => {
            crate::pdf::lemma_written_text_operations(
                before,
                p,
                0,
                font_key(font_index as nat),
                font_size,
                position,
                color,
                text_glyphs(fonts[font_index as int], nfc(text)),
            );
            let middle = document_layers(after_ops, fonts)[p][0].1;
            let layer = document_layers(operations, fonts)[p][0].1;
            let n = before[p][0].1.len() as int;
            assert(layer.take(middle.len() as int) == middle);
            assert(layer[n + 1] == middle[n + 1]);
            assert(layer[n + 2] == middle[n + 2]);
            assert(layer[n + 3] == middle[n + 3]);
        },
        OperationView::AppendNewPage { .. } => {},
    }
}

/// The sizes (width and height, in millimeters) of the pages that the operations append.
pub open spec fn page_sizes(operations: Seq<OperationView>) -> Seq<(Real, Real)>
    decreases operations.len(),
{
    if operations.len() == 0 {
        Seq::empty()
    } else {
        let sizes = page_sizes(operations.drop_last());
        match operations.last() {
            OperationView::AppendNewPage { page_width, page_height } => sizes.push(
                (Real::Millimeters(page_width), Real::Millimeters(page_height)),
            ),
            OperationView::WriteUnicodeText { .. } => sizes,
        }
    }
}

/// The PDF document that carrying out the operations of a document yields, with the given
/// fonts loaded in order: its identifier, its fonts (font `i` from the data of file `i`,
/// its dictionary numbered `i + 1`), its pages with their sizes and layers, and an empty
/// store of objects.
pub open spec fn is_built_document(pdf: PdfDocument, document_id: Seq<char>, fonts: Seq<Seq<u8>>, operations: Seq<OperationView>) -> bool {
    &&& pdf.well_formed()
    &&& pdf.spec_identifier() == document_id
    &&& pdf.spec_fonts().len() == fonts.len()
    &&& forall|i: int|
        0 <= i < fonts.len() ==> {
            &&& (#[trigger] pdf.spec_fonts()[i]).0 == ((i + 1) as u32, 0u16)
            &&& pdf.spec_fonts()[i].1.spec_bytes() == fonts[i]
            &&& pdf.spec_fonts()[i].1.spec_face_data() == fonts[i]
        }
    &&& pdf.spec_store().max_id == fonts.len()
    &&& pdf.spec_store().model() == Seq::<(ObjectId, Obj)>::empty()
    &&& pdf.spec_store().trailer.model() == Seq::<(Seq<u8>, Obj)>::empty()
    &&& pdf.spec_store().version@ == "1.5"@
    &&& pdf.spec_page_layers() == document_layers(operations, fonts)
    &&& pdf.spec_pages().len() == page_sizes(operations).len()
    &&& pdf.spec_pages().len() == page_count(operations)
    &&& forall|k: int| 0 <= k < pdf.spec_pages().len() ==> (#[trigger] pdf.spec_pages()[k]).spec_layers().len() == 1
    &&& forall|k: int|
        0 <= k < pdf.spec_pages().len() ==> (#[trigger] pdf.spec_pages()[k]).spec_width() == page_sizes(operations)[k].0
            && pdf.spec_pages()[k].spec_height() == page_sizes(operations)[k].1
}

/// The sizes of the pages are as many as the pages appended.
proof fn lemma_page_sizes_len(operations: Seq<OperationView>)
    ensures
        page_sizes(operations).len() == page_count(operations),
        page_count(operations) <= operations.len(),
    decreases operations.len(),
{
    if operations.len() > 0 {
        lemma_page_sizes_len(operations.drop_last());
    }
}

/// Carries out one operation onto a PDF document built from the operations `done`: an
/// appended page becomes the current page; a text is written onto the first layer of the
/// current page. Returns the index of the current page afterwards.
fn carry_out_operation(
    pdf_document: &mut PdfDocument,
    operation: &Operation,
    current_page_index: usize,
    document_id: Ghost<Seq<char>>,
    fonts: Ghost<Seq<Seq<u8>>>,
    done: Ghost<Seq<OperationView>>,
) -> (r: Result<usize, ContextError>)
    requires
        is_built_document(*old(pdf_document), document_id@, fonts@, done@),
        operations_valid(done@.push(operation@), fonts@.len()),
        page_count(done@) > 0 ==> current_page_index == page_count(done@) - 1,
        done@.len() + 1 < usize::MAX,
    ensures
        r matches Ok(next) && is_built_document(*final(pdf_document), document_id@, fonts@, done@.push(operation@)) && (page_count(
            done@.push(operation@),
        ) > 0 ==> next == page_count(done@.push(operation@)) - 1),
{
    let ghost next_operations = done@.push(operation@);
    proof {
        assert(next_operations.drop_last() =~= done@);
        assert(next_operations.take(done@.len() as int) =~= done@);
        lemma_page_sizes_len(done@);
        lemma_page_sizes_len(next_operations);
    }
    let ghost pages_before = pdf_document.spec_pages();
    match operation {
        Operation::WriteUnicodeText { color, position, text_string, font_size, font_index } => {
            proof {
                assert(next_operations[done@.len() as int] == operation@);
            }
            match pdf_document.write_text_to_layer_in_page(
                current_page_index,
                0,
                *color,
                text_string.clone(),
                *font_index,
                *font_size,
                *position,
            ) {
                Ok(()) => {},
                Err(error) => {
                    return Err(error);
                },
            }
            proof {
                assert forall|k: int| 0 <= k < pdf_document.spec_pages().len() implies (#[trigger] pdf_document.spec_pages()[k]).spec_width()
                    == page_sizes(next_operations)[k].0 && pdf_document.spec_pages()[k].spec_height() == page_sizes(next_operations)[k].1
                    && pdf_document.spec_pages()[k].spec_layers().len() == 1 by {
                    assert(pages_before[k].spec_width() == page_sizes(done@)[k].0);
                    assert(pdf_document.spec_page_layers()[k] == pdf_document.spec_pages()[k].spec_layers());
                    assert(old(pdf_document).spec_page_layers()[k] == pages_before[k].spec_layers());
                }
            }
            Ok(current_page_index)
        },
        Operation::AppendNewPage { page_width, page_height } => {
            let (page_index, _layer_index_in_page) = pdf_document.add_page_with_layer(*page_width, *page_height);
            proof {
                assert(pdf_document.spec_page_layers() =~= document_layers(next_operations, fonts@)) by {
                    assert forall|k: int| 0 <= k < pdf_document.spec_pages().len() implies #[trigger] pdf_document.spec_page_layers()[k]
                        == document_layers(next_operations, fonts@)[k] by {
                        if k < pages_before.len() {
                            assert(pdf_document.spec_pages()[k] == pages_before[k]);
                            assert(old(pdf_document).spec_page_layers()[k] == pages_before[k].spec_layers());
                        }
                    }
                }
                assert forall|k: int| 0 <= k < pdf_document.spec_pages().len() implies (#[trigger] pdf_document.spec_pages()[k]).spec_width()
                    == page_sizes(next_operations)[k].0 && pdf_document.spec_pages()[k].spec_height() == page_sizes(next_operations)[k].1
                    && pdf_document.spec_pages()[k].spec_layers().len() == 1 by {
                    if k < pages_before.len() {
                        assert(pdf_document.spec_pages()[k] == pages_before[k]);
                    }
                }
            }
            Ok(page_index)
        },
    }
}

/// The views of the data of font files.
pub open spec fn files_view(files: Seq<Vec<u8>>) -> Seq<Seq<u8>> {
    Seq::new(files.len(), |i: int| files[i]@)
}

/// The byte strings that the vectors hold.
pub open spec fn bytes_view(v: Seq<Vec<u8>>) -> Seq<Seq<u8>> {
    v.map_values(|b: Vec<u8>| b@)
}

/// The file name has the extension `ttf`: it ends with `.ttf` after a non-empty stem.
pub open spec fn has_ttf_extension(name: Seq<u8>) -> bool {
    name.len() >= 5 && name.subrange(name.len() - 4, name.len() as int) == seq![46u8, 116u8, 116u8, 102u8]
}

/// The file names that have the extension `ttf`, in their order.
pub open spec fn ttf_files(names: Seq<Seq<u8>>) -> Seq<Seq<u8>>
    decreases names.len(),
{
    if names.len() == 0 {
        Seq::empty()
    } else if has_ttf_extension(names.last()) {
        ttf_files(names.drop_last()).push(names.last())
    } else {
        ttf_files(names.drop_last())
    }
}

/// The byte strings are in lexicographic order.
pub open spec fn bytes_sorted(s: Seq<Seq<u8>>) -> bool {
    forall|i: int, j: int| 0 <= i < j < s.len() ==> !bytes_lt(#[trigger] s[j], #[trigger] s[i])
}

/// The selected file names are those of the names with the extension `ttf`, sorted in
/// lexicographic order of their bytes.
pub open spec fn is_font_selection(selected: Seq<Seq<u8>>, names: Seq<Seq<u8>>) -> bool {
    bytes_sorted(selected) && selected.to_multiset() == ttf_files(names).to_multiset()
}

/// The paths of the built-in fonts for the selected file names of the directory
/// `fonts/computer-modern`, followed by the Latin Modern math font.
pub open spec fn built_in_font_paths(selected: Seq<Seq<u8>>) -> Seq<Seq<u8>> {
    selected.map_values(|name: Seq<u8>| ascii("fonts/computer-modern/"@) + name).push(
        ascii("fonts/lm-math/opentype/latinmodern-math.otf"@),
    )
}

/// Whether the file name has the extension `ttf`.
fn is_ttf_file(name: &Vec<u8>) -> (r: bool)
    ensures
        r == has_ttf_extension(name@),
{
    let n = name.len();
    if n < 5 {
        return false;
    }
    let r = name[n - 4] == 46u8 && name[n - 3] == 116u8 && name[n - 2] == 116u8 && name[n - 1] == 102u8;
    proof {
        let tail = name@.subrange(n - 4, n as int);
        if r {
            assert(tail =~= seq![46u8, 116u8, 116u8, 102u8]);
        } else if tail == seq![46u8, 116u8, 116u8, 102u8] {
            assert(tail[0] == name@[n - 4]);
            assert(tail[1] == name@[n - 3]);
            assert(tail[2] == name@[n - 2]);
            assert(tail[3] == name@[n - 1]);
        }
    }
    r
}

/// If `x` comes before `a`, and `b` does not come before `a`, then `b` does not come
/// before `x`.
proof fn lemma_bytes_lt_after(x: Seq<u8>, a: Seq<u8>, b: Seq<u8>)
    requires
        bytes_lt(x, a),
        !bytes_lt(b, a),
    ensures
        !bytes_lt(b, x),
{
    if a != b {
        lemma_bytes_lt_total(a, b);
        lemma_bytes_lt_transitive(x, a, b);
    }
    if bytes_lt(b, x) {
        lemma_bytes_lt_transitive(x, b, x);
        lemma_bytes_lt_irreflexive(x);
    }
}

/// Selects the built-in fonts among the names of the files of the directory
/// `fonts/computer-modern`: the files with the extension `ttf`, sorted in lexicographic
/// order of their names, each as a path in that directory, then the path of the Latin
/// Modern math font.
pub fn font_paths(file_names: Vec<Vec<u8>>) -> (paths: Vec<Vec<u8>>)
    ensures
        exists|selected: Seq<Seq<u8>>|
            #[trigger] is_font_selection(selected, bytes_view(file_names@))
                && bytes_view(paths@) == built_in_font_paths(selected),
{
    let ghost names = bytes_view(file_names@);
    let mut selected: Vec<Vec<u8>> = Vec::new();
    let mut i: usize = 0;
    proof {
        assert(names.take(0) =~= Seq::<Seq<u8>>::empty());
        assert(bytes_view(selected@) =~= Seq::<Seq<u8>>::empty());
    }
    while i < file_names.len()
        invariant
            i <= file_names@.len(),
            names == bytes_view(file_names@),
            is_font_selection(bytes_view(selected@), names.take(i as int)),
        decreases file_names@.len() - i,
    {
        let ghost before = bytes_view(selected@);
        proof {
            assert(names.take(i as int + 1).drop_last() =~= names.take(i as int));
            assert(names.take(i as int + 1).last() == file_names@[i as int]@);
        }
        if is_ttf_file(&file_names[i]) {
            let name = file_names[i].clone();
            assert(name@ == file_names@[i as int]@);
            let mut position: usize = 0;
            while position < selected.len() && !bytes_less(&name, &selected[position])
                invariant
                    position <= selected@.len(),
                    before == bytes_view(selected@),
                    forall|q: int| 0 <= q < position ==> !bytes_lt(name@, #[trigger] before[q]),
                decreases selected@.len() - position,
            {
                position = position + 1;
            }
            selected.insert(position, name);
            let ghost after = bytes_view(selected@);
            proof {
                broadcast use vstd::seq_lib::group_to_multiset_ensures;
                let x = name@;
                assert(after =~= before.insert(position as int, x));
                assert(after.remove(position as int) =~= before);
                assert(after[position as int] == x);
                assert(after.to_multiset().count(x) > 0) by {
                    assert(after.contains(x));
                }
                assert(after.to_multiset() =~= before.to_multiset().insert(x));
                assert(ttf_files(names.take(i as int + 1)) == ttf_files(names.take(i as int)).push(x));
                assert forall|a: int, b: int| 0 <= a < b < after.len() implies !bytes_lt(#[trigger] after[b], #[trigger] after[a]) by {
                    if b < position {
                        assert(after[a] == before[a] && after[b] == before[b]);
                    } else if b == position {
                        assert(after[a] == before[a]);
                    } else if a < position {
                        assert(after[a] == before[a] && after[b] == before[b - 1]);
                        assert(bytes_lt(x, before[position as int]));
                        if b - 1 > position {
                            assert(!bytes_lt(before[b - 1], before[position as int]));
                        } else {
                            lemma_bytes_lt_irreflexive(before[position as int]);
                        }
                        lemma_bytes_lt_after(x, before[position as int], before[b - 1]);
                        if bytes_lt(before[b - 1], before[a]) {
                            assert(!bytes_lt(x, before[a]));
                            if x != before[a] {
                                lemma_bytes_lt_total(x, before[a]);
                                lemma_bytes_lt_transitive(before[b - 1], before[a], x);
                            }
                        }
                    } else if a == position {
                        assert(after[b] == before[b - 1]);
                        assert(bytes_lt(x, before[position as int]));
                        if b - 1 > position {
                            assert(!bytes_lt(before[b - 1], before[position as int]));
                        } else {
                            lemma_bytes_lt_irreflexive(before[position as int]);
                        }
                        lemma_bytes_lt_after(x, before[position as int], before[b - 1]);
                    } else {
                        assert(after[a] == before[a - 1] && after[b] == before[b - 1]);
                    }
                }
            }
        } else {
            proof {
                assert(ttf_files(names.take(i as int + 1)) == ttf_files(names.take(i as int)));
            }
        }
        i = i + 1;
    }
    assert(names.take(i as int) =~= names);
    let ghost chosen = bytes_view(selected@);
    let directory = ascii_bytes("fonts/computer-modern/");
    let mut paths: Vec<Vec<u8>> = Vec::new();
    let mut k: usize = 0;
    while k < selected.len()
        invariant
            k <= selected@.len(),
            chosen == bytes_view(selected@),
            directory@ == ascii("fonts/computer-modern/"@),
            bytes_view(paths@) == chosen.take(k as int).map_values(
                |name: Seq<u8>| ascii("fonts/computer-modern/"@) + name,
            ),
        decreases selected@.len() - k,
    {
        let mut path = directory.clone();
        let mut name = selected[k].clone();
        assert(path@ == directory@);
        assert(name@ == chosen[k as int]);
        path.append(&mut name);
        let ghost path_view = path@;
        assert(path_view == ascii("fonts/computer-modern/"@) + chosen[k as int]);
        let ghost old_paths = bytes_view(paths@);
        paths.push(path);
        proof {
            assert(bytes_view(paths@) =~= old_paths.push(path_view));
            assert(chosen.take(k as int + 1).map_values(|name: Seq<u8>| ascii("fonts/computer-modern/"@) + name)
                =~= chosen.take(k as int).map_values(|name: Seq<u8>| ascii("fonts/computer-modern/"@) + name).push(path_view));
            assert(chosen.take(k as int + 1) =~= chosen.take(k as int).push(chosen[k as int]));
            assert(bytes_view(paths@) =~= chosen.take(k as int + 1).map_values(
                |name: Seq<u8>| ascii("fonts/computer-modern/"@) + name,
            ));
        }
        k = k + 1;
    }
    assert(chosen.take(k as int) =~= chosen);
    let math = ascii_bytes("fonts/lm-math/opentype/latinmodern-math.otf");
    paths.push(math);
    assert(bytes_view(paths@) =~= built_in_font_paths(chosen));
    paths
}

impl Document {
    /// Builds the PDF document of a document that can be converted: the fonts are loaded
    /// in the given order (each named `F` and its index), then the operations are carried
    /// out in order, each appended page becoming the current page and its only layer the
    /// current layer, onto which the texts are written. The identifier of the PDF
    /// document is the document identifier.
    fn build_pdf_document(&self, font_files: Vec<Vec<u8>>) -> (r: Result<PdfDocument, ContextError>)
        requires
            forall|i: int| 0 <= i < font_files@.len() ==> face_parses(#[trigger] font_files@[i]@),
            forall|i: int| 0 <= i < font_files@.len() ==> (#[trigger] font_files@[i]@).len() <= i64::MAX,
            font_files@.len() < u32::MAX,
            operations_valid(operations_view(self.operations@), font_files@.len()),
            self.operations@.len() < usize::MAX,
        ensures
            r matches Ok(pdf) && is_built_document(pdf, self.document_id@, files_view(font_files@), operations_view(self.operations@)),
    {
        let ghost fonts = files_view(font_files@);
        let ghost operations = operations_view(self.operations@);
        let mut pdf_document = PdfDocument::new(self.document_id.clone());

        // The fonts, in the given order
        let mut rest = font_files;
        let ghost all = rest@;
        let mut loaded: usize = 0;
        assert(rest@ =~= all.skip(0));
        while rest.len() > 0
            invariant
                loaded + rest@.len() == all.len(),
                all.len() < u32::MAX,
                rest@ == all.skip(loaded as int),
                fonts == files_view(all),
                forall|i: int| 0 <= i < all.len() ==> face_parses(#[trigger] all[i]@),
                forall|i: int| 0 <= i < all.len() ==> (#[trigger] all[i]@).len() <= i64::MAX,
                pdf_document.well_formed(),
                pdf_document.spec_identifier() == self.document_id@,
                pdf_document.spec_fonts().len() == loaded,
                forall|i: int|
                    0 <= i < loaded ==> {
                        &&& (#[trigger] pdf_document.spec_fonts()[i]).0 == ((i + 1) as u32, 0u16)
                        &&& pdf_document.spec_fonts()[i].1.spec_bytes() == fonts[i]
                        &&& pdf_document.spec_fonts()[i].1.spec_face_data() == fonts[i]
                    },
                pdf_document.spec_store().max_id == loaded,
                pdf_document.spec_store().model() == Seq::<(ObjectId, Obj)>::empty(),
                pdf_document.spec_store().trailer.model() == Seq::<(Seq<u8>, Obj)>::empty(),
                pdf_document.spec_store().version@ == "1.5"@,
                pdf_document.spec_pages().len() == 0,
                pdf_document.spec_page_layers() == Seq::<Seq<LayerModel>>::empty(),
            decreases rest.len(),
        {
            let bytes = rest.remove(0);
            assert(bytes == all[loaded as int]);
            let ghost fonts_before = pdf_document.spec_fonts();
            match pdf_document.add_font(bytes) {
                Ok(_) => {},
                Err(error) => {
                    return Err(error);
                },
            }
            proof {
                assert forall|i: int| 0 <= i < loaded + 1 implies {
                    &&& (#[trigger] pdf_document.spec_fonts()[i]).0 == ((i + 1) as u32, 0u16)
                    &&& pdf_document.spec_fonts()[i].1.spec_bytes() == fonts[i]
                    &&& pdf_document.spec_fonts()[i].1.spec_face_data() == fonts[i]
                } by {
                    if i < loaded {
                        assert(pdf_document.spec_fonts()[i] == pdf_document.spec_fonts().drop_last()[i]);
                    }
                }
            }
            loaded = loaded + 1;
            assert(rest@ =~= all.skip(loaded as int));
        }

        // The operations, in order
        let mut current_page_index: usize = 0;
        let mut i: usize = 0;
        assert(operations.take(0) =~= Seq::<OperationView>::empty());
        assert(pdf_document.spec_page_layers() =~= document_layers(operations.take(0), fonts));
        while i < self.operations.len()
            invariant
                i <= self.operations@.len(),
                self.operations@.len() < usize::MAX,
                operations == operations_view(self.operations@),
                operations_valid(operations, fonts.len()),
                is_built_document(pdf_document, self.document_id@, fonts, operations.take(i as int)),
                page_count(operations.take(i as int)) > 0 ==> current_page_index == page_count(operations.take(i as int)) - 1,
            decreases self.operations@.len() - i,
        {
            let ghost taken = operations.take(i as int);
            proof {
                assert(operations.take(i as int + 1) =~= taken.push(self.operations@[i as int]@));
                assert forall|j: int| 0 <= j < taken.len() + 1 implies (#[trigger] operations.take(i as int + 1)[j] matches OperationView::WriteUnicodeText { font_index, .. }
                    ==> font_index < fonts.len() && page_count(operations.take(i as int + 1).take(j)) > 0) by {
                    assert(operations.take(i as int + 1)[j] == operations[j]);
                    assert(operations.take(i as int + 1).take(j) =~= operations.take(j));
                }
            }
            current_page_index = carry_out_operation(
                &mut pdf_document,
                &self.operations[i],
                current_page_index,
                Ghost(self.document_id@),
                Ghost(fonts),
                Ghost(taken),
            )?;
            i = i + 1;
        }
        assert(operations.take(i as int) =~= operations);
        Ok(pdf_document)
    }

    /// Converts the document into a PDF document: the fonts are loaded in the given order
    /// (each named `F` and its index), then the operations are carried out in order, each
    /// appended page becoming the current page and its only layer the current layer, onto
    /// which the texts are written. The identifier of the PDF document is the document
    /// identifier.
    ///
    /// Fails when a font file does not parse as a font face, with the error of `add_font`
    /// ("Failed to parse font"); otherwise at the first text written in a font that is not
    /// loaded ("Failed to find font ... into the fonts map") or before any page was
    /// appended ("Failed to find the page with index 0").
    #[verifier::rlimit(40)]
    pub fn to_pdf_document(&self, font_files: Vec<Vec<u8>>) -> (r: Result<PdfDocument, ContextError>)
        requires
            forall|i: int| 0 <= i < font_files@.len() ==> (#[trigger] font_files@[i]@).len() <= i64::MAX,
            font_files@.len() < u32::MAX,
            self.operations@.len() < usize::MAX,
        ensures
            r is Ok <==> (forall|i: int| 0 <= i < font_files@.len() ==> face_parses(#[trigger] font_files@[i]@))
                && operations_valid(operations_view(self.operations@), font_files@.len()),
            r matches Ok(pdf) ==> is_built_document(pdf, self.document_id@, files_view(font_files@), operations_view(self.operations@)),
            r matches Err(e) ==> if (forall|i: int| 0 <= i < font_files@.len() ==> face_parses(#[trigger] font_files@[i]@)) {
                &&& operations_error(operations_view(self.operations@), font_files@.len()) == Some(e.context@)
                &&& e.source_error is None
            } else {
                &&& e.context@ == "Failed to parse font"@
                &&& exists|i: int|
                    {
                        &&& 0 <= i < font_files@.len()
                        &&& !face_parses(#[trigger] font_files@[i]@)
                        &&& forall|j: int| 0 <= j < i ==> face_parses(#[trigger] font_files@[j]@)
                        &&& e.source_error matches Some(s) && s@ == context_error_message(
                            "Failed to parse font"@,
                            Some(face_parsing_error_text(font_files@[i]@)),
                        )
                    }
            },
    {
        let ghost operations = operations_view(self.operations@);
        let mut i: usize = 0;
        while i < font_files.len()
            invariant
                i <= font_files@.len(),
                forall|j: int| 0 <= j < i ==> face_parses(#[trigger] font_files@[j]@),
            decreases font_files@.len() - i,
        {
            match TtfFontFace::from_bytes(font_files[i].as_slice()) {
                Ok(_) => {},
                Err(error) => {
                    let message = error.message();
                    proof {
                        assert(message@ == context_error_message(
                            "Failed to parse font"@,
                            Some(face_parsing_error_text(font_files@[i as int]@)),
                        ));
                        assert(!face_parses(font_files@[i as int]@));
                    }
                    return Err(ContextError::with_error("Failed to parse font".to_string(), message));
                },
            }
            i = i + 1;
        }
        let mut pages: usize = 0;
        let mut k: usize = 0;
        while k < self.operations.len()
            invariant
                k <= self.operations@.len(),
                self.operations@.len() < usize::MAX,
                operations == operations_view(self.operations@),
                pages == page_count(operations.take(k as int)),
                forall|j: int| 0 <= j < font_files@.len() ==> face_parses(#[trigger] font_files@[j]@),
                operations_error(operations.take(k as int), font_files@.len()) is None,
                forall|j: int|
                    0 <= j < k ==> (#[trigger] operations[j] matches OperationView::WriteUnicodeText { font_index, .. }
                        ==> font_index < font_files@.len() && page_count(operations.take(j)) > 0),
            decreases self.operations@.len() - k,
        {
            proof {
                assert(operations.take(k as int + 1).drop_last() =~= operations.take(k as int));
                assert(operations.take(k as int + 1).last() == operations[k as int]);
                assert(operations[k as int] == self.operations@[k as int]@);
                lemma_page_sizes_len(operations.take(k as int));
            }
            match &self.operations[k] {
                Operation::WriteUnicodeText { font_index, .. } => {
                    if *font_index >= font_files.len() {
                        let mut text = str_chars("Failed to find font ");
                        let digits = decimal_chars(*font_index as u64);
                        push_chars(&mut text, &digits);
                        push_str(&mut text, " into the fonts map");
                        let message = chars_to_string(&text);
                        proof {
                            assert(operations_error(operations.take(k as int + 1), font_files@.len()) == Some(message@));
                            lemma_operations_error_prefix(operations, k as int + 1, font_files@.len());
                        }
                        return Err(ContextError::with_context(message));
                    }
                    if pages == 0 {
                        let message = "Failed to find the page with index 0".to_string();
                        proof {
                            assert(operations_error(operations.take(k as int + 1), font_files@.len()) == Some(message@));
                            lemma_operations_error_prefix(operations, k as int + 1, font_files@.len());
                        }
                        return Err(ContextError::with_context(message));
                    }
                },
                Operation::AppendNewPage { .. } => {
                    pages = pages + 1;
                },
            }
            k = k + 1;
        }
        assert(operations.take(k as int) =~= operations);
        self.build_pdf_document(font_files)
    }
}

} // verus!