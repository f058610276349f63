//! Fonts loaded from TrueType or OpenType data, read with `owned_ttf_parser`, and the
//! dictionaries that describe them inside a PDF document.
//!
//! A face is kept as the data it was parsed from; each reading of the face parses that
//! data again (which the parser documents as close to free) and asks the face one thing.
use vstd::prelude::*;
use owned_ttf_parser::{Face, FaceParsingError, GlyphId};
use crate::error::ContextError;
use crate::strings::{char_from_u32, is_scalar_value};
use crate::pdf_object::{
    add_entry, add_item, entries_model, new_entries, new_items, ascii, ascii_bytes, array_object, assoc_get, assoc_set, lemma_assoc_get_at, has_key, name, name_object, objects_model, utf8, utf8_bytes, ContentModel,
    Dictionary, Obj, ObjectId, ObjectStore, PdfObject, PdfStream, StreamContent, StringFormat,
};
use crate::cmap::{
    blocks_view, cmap_text, generate_cid_to_unicode_map, gid_blocks, glyph_table, glyph_table_rows, glyphs_valid,
    is_block_split, is_glyph_table, lemma_block_split_unique, lemma_glyph_table_unique, lemma_width_runs_unique,
    glyph_row, is_width_runs, maximum_height, row_entries, runs_view, total_width, width_runs, GlyphRow,
};

verus! {

/// Declares `owned_ttf_parser::FaceParsingError`, the error of parsing a font face.
#[verifier::external_type_specification]
#[verifier::external_body]
pub struct ExFaceParsingError(FaceParsingError);

/// Whether `Face::parse` accepts the data as a font face (face index zero).
pub uninterp spec fn face_parses(data: Seq<u8>) -> bool;

/// What `Face::units_per_em` returns for the face parsed from the data.
pub uninterp spec fn units_per_em_of(data: Seq<u8>) -> u16;

/// What `Face::ascender` returns for the face parsed from the data.
pub uninterp spec fn ascender_of(data: Seq<u8>) -> i16;

/// What `Face::descender` returns for the face parsed from the data.
pub uninterp spec fn descender_of(data: Seq<u8>) -> i16;

/// What `Face::number_of_glyphs` returns for the face parsed from the data.
pub uninterp spec fn glyph_count_of(data: Seq<u8>) -> u16;

/// What `Face::glyph_index` returns for a character, for the face parsed from the data.
pub uninterp spec fn glyph_index_of(data: Seq<u8>, character: char) -> Option<u16>;

/// What `Face::glyph_hor_advance` returns for a glyph, for the face parsed from the data.
pub uninterp spec fn hor_advance_of(data: Seq<u8>, glyph: u16) -> Option<u16>;

/// What `Face::glyph_bounding_box` returns for a glyph, for the face parsed from the
/// data, as `(x_min, y_min, x_max, y_max)`.
pub uninterp spec fn bounding_box_of(data: Seq<u8>, glyph: u16) -> Option<(i16, i16, i16, i16)>;

/// What `Subtables::len` returns for the character map of the face parsed from the data
/// (`None` when the face has no character map).
pub uninterp spec fn subtable_count_of(data: Seq<u8>) -> Option<u16>;

/// What `Subtable::is_unicode` returns for a subtable of the character map of the face
/// parsed from the data (`None` when there is no character map or `Subtables::get`
/// cannot read the subtable).
pub uninterp spec fn subtable_is_unicode_of(data: Seq<u8>, index: u16) -> Option<bool>;

/// The code points that `Subtable::codepoints` enumerates, in order, for a subtable of the
/// character map of the face parsed from the data (`None` when there is no character map
/// or `Subtables::get` cannot read the subtable).
pub uninterp spec fn subtable_codepoints_of(data: Seq<u8>, index: u16) -> Option<Seq<u32>>;

/// What `Subtable::glyph_index` returns for a code point, for a subtable of the character
/// map of the face parsed from the data (`None` also when there is no character map or
/// `Subtables::get` cannot read the subtable).
pub uninterp spec fn subtable_glyph_index_of(data: Seq<u8>, index: u16, codepoint: u32) -> Option<u16>;

/// The (insofar) relevant vertical metrics of a font.
#[derive(Clone, Copy, Debug, Default, PartialEq, Eq, Structural)]
pub struct FontMetrics {
    /// The ascent of the font.
    pub ascent: i16,
    /// The descent of the font.
    pub descent: i16,
    /// The number of units per em of the font.
    pub units_per_em: u16,
}

/// The (insofar) relevant metrics associated to a single glyph of a font.
#[derive(Clone, Copy, Debug, Default, PartialEq, Eq, Structural)]
pub struct GlyphMetrics {
    /// The width of the glyph.
    pub width: u32,
    /// The height of the glyph.
    pub height: u32,
}

/// The text that `FaceParsingError` displays for the error of `Face::parse` on the data
/// (face index zero), when it fails.
pub uninterp spec fn face_parsing_error_text(data: Seq<u8>) -> Seq<char>;

/// Calls `Face::parse` on the data with face index zero and keeps only whether it
/// succeeded, with the error when it did not. The error, and so the text it displays,
/// is decided by the data alone.
#[verifier::external_body]
fn parse_face(data: &[u8]) -> (r: Result<(), FaceParsingError>)
    ensures
        r is Ok <==> face_parses(data@),
        r matches Err(e) ==> forall|text: String|
            #[trigger] vstd::string::to_string_from_display_ensures::<FaceParsingError>(&e, text) ==> text@
                == face_parsing_error_text(data@),
{
    Face::parse(data, 0).map(|_face| ())
}

/// Calls `Face::units_per_em` on the face parsed from the data (`None` when it does not
/// parse); the parser documents the result to lie in `16..=16384`.
#[verifier::external_body]
fn face_units_per_em(data: &[u8]) -> (r: Option<u16>)
    ensures
        r is Some <==> face_parses(data@),
        r matches Some(u) ==> u == units_per_em_of(data@) && 16 <= u <= 16384,
{
    Face::parse(data, 0).ok().map(|face| face.units_per_em())
}

/// Calls `Face::ascender` on the face parsed from the data (`None` when it does not
/// parse).
#[verifier::external_body]
fn face_ascender(data: &[u8]) -> (r: Option<i16>)
    ensures
        r is Some <==> face_parses(data@),
        r matches Some(a) ==> a == ascender_of(data@),
{
    Face::parse(data, 0).ok().map(|face| face.ascender())
}

/// Calls `Face::descender` on the face parsed from the data (`None` when it does not
/// parse).
#[verifier::external_body]
fn face_descender(data: &[u8]) -> (r: Option<i16>)
    ensures
        r is Some <==> face_parses(data@),
        r matches Some(d) ==> d == descender_of(data@),
{
    Face::parse(data, 0).ok().map(|face| face.descender())
}

/// Calls `Face::number_of_glyphs` on the face parsed from the data (`None` when it does
/// not parse); the parser documents the result never to be zero.
#[verifier::external_body]
fn face_number_of_glyphs(data: &[u8]) -> (r: Option<u16>)
    ensures
        r is Some <==> face_parses(data@),
        r matches Some(n) ==> n == glyph_count_of(data@) && n >= 1,
{
    Face::parse(data, 0).ok().map(|face| face.number_of_glyphs())
}

/// Calls `Face::glyph_index` for a character on the face parsed from the data (`None`
/// when it does not parse), the glyph identifier taken as a number.
#[verifier::external_body]
fn face_glyph_index(data: &[u8], character: char) -> (r: Option<Option<u16>>)
    ensures
        r is Some <==> face_parses(data@),
        r matches Some(g) ==> g == glyph_index_of(data@, character),
{
    Face::parse(data, 0).ok().map(|face| face.glyph_index(character).map(|glyph_id| glyph_id.0))
}

/// Calls `Face::glyph_hor_advance` for a glyph on the face parsed from the data (`None`
/// when it does not parse).
#[verifier::external_body]
fn face_glyph_hor_advance(data: &[u8], glyph: u16) -> (r: Option<Option<u16>>)
    ensures
        r is Some <==> face_parses(data@),
        r matches Some(a) ==> a == hor_advance_of(data@, glyph),
{
    Face::parse(data, 0).ok().map(|face| face.glyph_hor_advance(GlyphId(glyph)))
}

/// Calls `Face::glyph_bounding_box` for a glyph on the face parsed from the data (`None`
/// when it does not parse), the rectangle taken apart.
#[verifier::external_body]
fn face_glyph_bounding_box(data: &[u8], glyph: u16) -> (r: Option<Option<(i16, i16, i16, i16)>>)
    ensures
        r is Some <==> face_parses(data@),
        r matches Some(b) ==> b == bounding_box_of(data@, glyph),
{
    Face::parse(data, 0).ok().map(|face| face.glyph_bounding_box(GlyphId(glyph)).map(|b| (b.x_min, b.y_min, b.x_max, b.y_max)))
}

/// Calls `Subtables::len` on the subtables of the character map of the face parsed from
/// the data (`None` when it does not parse; inside, `None` when the face has no character
/// map).
#[verifier::external_body]
fn face_cmap_subtable_count(data: &[u8]) -> (r: Option<Option<u16>>)
    ensures
        r is Some <==> face_parses(data@),
        r matches Some(n) ==> n == subtable_count_of(data@),
{
    Face::parse(data, 0).ok().map(|face| face.tables().cmap.map(|table| table.subtables.len()))
}

/// Calls `Subtables::get` for a subtable of the character map of the face parsed from the
/// data, and `Subtable::is_unicode` on what it reads (`None` when the data does not parse;
/// inside, `None` when there is no character map or the subtable cannot be read).
#[verifier::external_body]
fn face_subtable_is_unicode(data: &[u8], index: u16) -> (r: Option<Option<bool>>)
    ensures
        r is Some <==> face_parses(data@),
        r matches Some(u) ==> u == subtable_is_unicode_of(data@, index),
{
    Face::parse(data, 0).ok().map(|face| face.tables().cmap.and_then(|table| table.subtables.get(index)).map(|subtable| subtable.is_unicode()))
}

/// Appends a code point to a list.
pub fn push_codepoint(codepoints: &mut Vec<u32>, codepoint: u32)
    ensures
        final(codepoints)@ == old(codepoints)@.push(codepoint),
{
    codepoints.push(codepoint);
}

/// Calls `Subtables::get` for a subtable of the character map of the face parsed from the
/// data, and `Subtable::codepoints` on what it reads, collecting the code points it
/// enumerates in order (`None` when the data does not parse; inside, `None` when there is
/// no character map or the subtable cannot be read).
#[verifier::external_body]
fn face_subtable_codepoints(data: &[u8], index: u16) -> (r: Option<Option<Vec<u32>>>)
    ensures
        r is Some <==> face_parses(data@),
        r matches Some(c) ==> match c {
            Some(codepoints) => subtable_codepoints_of(data@, index) == Some(codepoints@),
            None => subtable_codepoints_of(data@, index) is None,
        },
{
    Face::parse(data, 0).ok().map(|face| face.tables().cmap.and_then(|table| table.subtables.get(index)).map(|subtable| {
        let mut codepoints = Vec::new();
        subtable.codepoints(|codepoint| push_codepoint(&mut codepoints, codepoint));
        codepoints
    }))
}

/// Calls `Subtables::get` for a subtable of the character map of the face parsed from the
/// data, and `Subtable::glyph_index` for a code point on what it reads, the glyph
/// identifier taken as a number (`None` when the data does not parse; inside, `None` when
/// there is no character map, the subtable cannot be read or has no glyph for the code
/// point).
#[verifier::external_body]
fn face_subtable_glyph_index(data: &[u8], index: u16, codepoint: u32) -> (r: Option<Option<u16>>)
    ensures
        r is Some <==> face_parses(data@),
        r matches Some(g) ==> g == subtable_glyph_index_of(data@, index, codepoint),
{
    Face::parse(data, 0).ok().map(|face| {
        face.tables().cmap.and_then(|table| table.subtables.get(index)).and_then(|subtable| subtable.glyph_index(codepoint)).map(|glyph_id| glyph_id.0)
    })
}

/// The metrics of a glyph from its horizontal advance, its bounding box and the descender
/// of the font: the width is the advance, the height is `y_max - y_min - descender` (as an
/// `i16` converted to `u32`), or 1000 without a bounding box. `None` when there is no
/// advance, or when that subtraction leaves the range of `i16`.
pub open spec fn metrics_from_parts(
    advance: Option<u16>,
    bounding_box: Option<(i16, i16, i16, i16)>,
    descender: i16,
) -> Option<GlyphMetrics> {
    match advance {
        None => None,
        Some(width) => match bounding_box {
            None => Some(GlyphMetrics { width: width as u32, height: 1000 }),
            Some(b) => {
                let spread = b.3 as int - b.1 as int;
                let height = spread - descender as int;
                if spread < i16::MIN || spread > i16::MAX || height < i16::MIN || height > i16::MAX {
                    None
                } else {
                    Some(
                        GlyphMetrics {
                            width: width as u32,
                            height: if height >= 0 { height as u32 } else { (height + 0x1_0000_0000) as u32 },
                        },
                    )
                }
            },
        },
    }
}

/// Computes the metrics of a glyph from its horizontal advance, its bounding box and the
/// descender of the font.
pub fn glyph_metrics_from_parts(
    advance: Option<u16>,
    bounding_box: Option<(i16, i16, i16, i16)>,
    descender: i16,
) -> (metrics: Option<GlyphMetrics>)
    ensures
        metrics == metrics_from_parts(advance, bounding_box, descender),
{
    match advance {
        None => None,
        Some(width) => match bounding_box {
            None => Some(GlyphMetrics { width: width as u32, height: 1000 }),
            Some(b) => {
                let spread: i32 = b.3 as i32 - b.1 as i32;
                if spread < -32768 || spread > 32767 {
                    return None;
                }
                let height: i32 = spread - descender as i32;
                if height < -32768 || height > 32767 {
                    return None;
                }
                let height_u32: u32 = if height >= 0 {
                    height as u32
                } else {
                    (height as i64 + 0x1_0000_0000i64) as u32
                };
                Some(GlyphMetrics { width: width as u32, height: height_u32 })
            },
        },
    }
}

/// The vertical metrics of the face parsed from the data.
pub open spec fn face_metrics_of(data: Seq<u8>) -> FontMetrics {
    FontMetrics { ascent: ascender_of(data), descent: descender_of(data), units_per_em: units_per_em_of(data) }
}

/// The metrics of a glyph of the face parsed from the data.
pub open spec fn glyph_metrics_of(data: Seq<u8>, glyph: u16) -> Option<GlyphMetrics> {
    metrics_from_parts(hor_advance_of(data, glyph), bounding_box_of(data, glyph), descender_of(data))
}

/// A table with no character for any of the 65536 glyph identifiers.
pub open spec fn empty_glyph_chars() -> Seq<Option<char>> {
    Seq::new(65536, |g: int| None::<char>)
}

/// Reading one code point of a Unicode subtable into the table of characters by glyph:
/// a code point that is a character and maps to a glyph above zero that has no character
/// yet gives that glyph the character.
pub open spec fn read_codepoint(data: Seq<u8>, index: u16, table: Seq<Option<char>>, codepoint: u32) -> Seq<Option<char>> {
    if is_scalar_value(codepoint) {
        match subtable_glyph_index_of(data, index, codepoint) {
            Some(g) => if g > 0 && table[g as int] is None {
                table.update(g as int, Some(codepoint as char))
            } else {
                table
            },
            None => table,
        }
    } else {
        table
    }
}

/// Reading code points of a Unicode subtable, in order, into the table of characters.
pub open spec fn read_codepoints(data: Seq<u8>, index: u16, table: Seq<Option<char>>, codepoints: Seq<u32>) -> Seq<Option<char>>
    decreases codepoints.len(),
{
    if codepoints.len() == 0 {
        table
    } else {
        read_codepoint(data, index, read_codepoints(data, index, table, codepoints.drop_last()), codepoints.last())
    }
}

/// The table of characters by glyph after reading the first `n` subtables of the
/// character map, and whether the reading stopped at a subtable that cannot be read.
pub open spec fn read_subtables(data: Seq<u8>, n: nat) -> (Seq<Option<char>>, bool)
    decreases n,
{
    if n == 0 {
        (empty_glyph_chars(), false)
    } else {
        let (table, stopped) = read_subtables(data, (n - 1) as nat);
        if stopped {
            (table, true)
        } else {
            let index = (n - 1) as u16;
            match subtable_is_unicode_of(data, index) {
                None => (table, true),
                Some(false) => (table, false),
                Some(true) => (read_codepoints(data, index, table, codepoints_or_none(data, index)), false),
            }
        }
    }
}

/// The code points of a subtable, none when it cannot be read.
pub open spec fn codepoints_or_none(data: Seq<u8>, index: u16) -> Seq<u32> {
    match subtable_codepoints_of(data, index) {
        Some(codepoints) => codepoints,
        None => Seq::empty(),
    }
}

/// The number of subtables of the character map, zero without a character map.
pub open spec fn subtable_count_or_zero(data: Seq<u8>) -> u16 {
    match subtable_count_of(data) {
        Some(count) => count,
        None => 0,
    }
}

/// The pairs of glyph identifier and character, for the glyph identifiers from 1 below
/// `n` that have a character in the table, in increasing order.
pub open spec fn present_glyphs(table: Seq<Option<char>>, n: nat) -> Seq<(u16, char)>
    decreases n,
{
    if n <= 1 {
        Seq::empty()
    } else {
        let previous = present_glyphs(table, (n - 1) as nat);
        match table[n - 1] {
            Some(c) => previous.push(((n - 1) as u16, c)),
            None => previous,
        }
    }
}

/// The association between glyph identifiers and characters that the Unicode subtables
/// of the character map of the face parsed from the data give.
pub open spec fn glyph_chars_of(data: Seq<u8>) -> Seq<(u16, char)> {
    present_glyphs(read_subtables(data, subtable_count_or_zero(data) as nat).0, 65536)
}

/// Once the reading of subtables has stopped, reading more leaves it as it is.
proof fn lemma_read_subtables_stopped(data: Seq<u8>, k: nat, n: nat)
    requires
        k <= n,
        read_subtables(data, k).1,
    ensures
        read_subtables(data, n) == read_subtables(data, k),
    decreases n - k,
{
    if k < n {
        lemma_read_subtables_stopped(data, k, (n - 1) as nat);
    }
}

/// Reading code points keeps the table at 65536 entries.
proof fn lemma_read_codepoints_len(data: Seq<u8>, index: u16, table: Seq<Option<char>>, codepoints: Seq<u32>)
    requires
        table.len() == 65536,
    ensures
        read_codepoints(data, index, table, codepoints).len() == 65536,
    decreases codepoints.len(),
{
    if codepoints.len() > 0 {
        lemma_read_codepoints_len(data, index, table, codepoints.drop_last());
    }
}

/// Reading subtables keeps the table at 65536 entries.
proof fn lemma_read_subtables_len(data: Seq<u8>, n: nat)
    ensures
        read_subtables(data, n).0.len() == 65536,
    decreases n,
{
    if n > 0 {
        lemma_read_subtables_len(data, (n - 1) as nat);
        let (table, stopped) = read_subtables(data, (n - 1) as nat);
        let index = (n - 1) as u16;
        lemma_read_codepoints_len(data, index, table, codepoints_or_none(data, index));
    }
}

/// The glyph identifiers of `present_glyphs` are positive, below `n` and increasing.
proof fn lemma_present_glyphs_increasing(table: Seq<Option<char>>, n: nat)
    requires
        n <= 65536,
    ensures
        forall|i: int| 0 <= i < present_glyphs(table, n).len() ==> 0 < #[trigger] present_glyphs(table, n)[i].0 < n,
        forall|i: int, j: int|
            0 <= i < j < present_glyphs(table, n).len() ==> #[trigger] present_glyphs(table, n)[i].0
                < #[trigger] present_glyphs(table, n)[j].0,
    decreases n,
{
    if n > 1 {
        lemma_present_glyphs_increasing(table, (n - 1) as nat);
        let previous = present_glyphs(table, (n - 1) as nat);
        let current = present_glyphs(table, n);
        match table[n - 1] {
            Some(c) => {
                let last: (u16, char) = ((n - 1) as u16, c);
                assert(current == previous.push(last));
                assert(last.0 == n - 1);
                assert forall|i: int| 0 <= i < current.len() implies 0 < #[trigger] current[i].0 < n by {
                    if i < previous.len() {
                        assert(current[i] == previous[i]);
                    }
                }
                assert forall|i: int, j: int| 0 <= i < j < current.len() implies #[trigger] current[i].0 < #[trigger] current[j].0 by {
                    assert(current[i] == previous[i]);
                    if j < previous.len() {
                        assert(current[j] == previous[j]);
                    }
                }
            },
            None => {},
        }
    }
}

/// A font face loaded from a TTF font: the data it was parsed from, together with its
/// measure of units per em.
#[derive(Debug)]
pub struct TtfFontFace {
    data: Vec<u8>,
    units_per_em: u16,
}

impl TtfFontFace {
    /// The data is a face that parses, and the units per em are those of the face.
    #[verifier::type_invariant]
    closed spec fn parsed(&self) -> bool {
        &&& face_parses(self.data@)
        &&& self.units_per_em == units_per_em_of(self.data@)
        &&& 16 <= self.units_per_em <= 16384
    }

    /// The data the face is parsed from.
    pub closed spec fn spec_data(&self) -> Seq<u8> {
        self.data@
    }

    /// The number of units per em of the face.
    pub closed spec fn spec_units_per_em(&self) -> u16 {
        self.units_per_em
    }

    /// Constructs a font face from the raw data of a TTF font file. Fails, with the error
    /// of the parser as source, exactly when the parser does not accept the data.
    pub fn from_bytes(data: &[u8]) -> (r: Result<TtfFontFace, ContextError>)
        ensures
            r is Ok <==> face_parses(data@),
            r matches Ok(face) ==> face.spec_data() == data@ && face.spec_units_per_em() == units_per_em_of(data@),
            r matches Err(e) ==> e.context@ == "Failed to parse font"@ && (e.source_error matches Some(source)
                && source@ == face_parsing_error_text(data@)),
    {
        match parse_face(data) {
            Ok(()) => {},
            Err(error) => {
                return Err(ContextError::with_error("Failed to parse font".to_string(), error.to_string()));
            },
        }
        let units_per_em = face_units_per_em(data).unwrap();
        Ok(TtfFontFace { data: vstd::slice::slice_to_vec(data), units_per_em })
    }

    /// Retrieve the vertical metrics of the face.
    pub fn font_metrics(&self) -> (m: FontMetrics)
        ensures
            m == face_metrics_of(self.spec_data()),
    {
        proof {
            use_type_invariant(self);
        }
        FontMetrics {
            ascent: face_ascender(self.data.as_slice()).unwrap(),
            descent: face_descender(self.data.as_slice()).unwrap(),
            units_per_em: self.units_per_em,
        }
    }

    /// Retrieve the glyph identifier of a character.
    pub fn glyph_id(&self, codepoint: char) -> (r: Option<u16>)
        ensures
            r == glyph_index_of(self.spec_data(), codepoint),
    {
        proof {
            use_type_invariant(self);
        }
        face_glyph_index(self.data.as_slice(), codepoint).unwrap()
    }

    /// Retrieve the total number of glyphs of the face.
    pub fn glyph_count(&self) -> (r: u16)
        ensures
            r == glyph_count_of(self.spec_data()),
    {
        proof {
            use_type_invariant(self);
        }
        face_number_of_glyphs(self.data.as_slice()).unwrap()
    }

    /// The metrics of a glyph: its horizontal advance as width and the height of its
    /// bounding box corrected by the descender of the face. `None` when the face has no
    /// advance for the glyph, or when the height leaves the range of `i16`.
    pub fn glyph_metrics(&self, glyph_id: u16) -> (metrics: Option<GlyphMetrics>)
        ensures
            metrics == glyph_metrics_of(self.spec_data(), glyph_id),
    {
        proof {
            use_type_invariant(self);
        }
        let advance = face_glyph_hor_advance(self.data.as_slice(), glyph_id).unwrap();
        let bounding_box = face_glyph_bounding_box(self.data.as_slice(), glyph_id).unwrap();
        let descender = face_descender(self.data.as_slice()).unwrap();
        glyph_metrics_from_parts(advance, bounding_box, descender)
    }

    /// The association between glyph identifiers and characters given by the Unicode
    /// subtables of the face's character map: for each glyph identifier above zero, the
    /// first character (in the order of the subtables and of their code points) that maps
    /// to it. The reading stops at the first subtable that cannot be read. The glyph
    /// identifiers are distinct, positive and increasing.
    pub fn glyph_ids(&self) -> (ids: Vec<(u16, char)>)
        ensures
            ids@ == glyph_chars_of(self.spec_data()),
            forall|i: int| 0 <= i < ids@.len() ==> #[trigger] ids@[i].0 > 0,
            forall|i: int, j: int| 0 <= i < j < ids@.len() ==> #[trigger] ids@[i].0 < #[trigger] ids@[j].0,
    {
        proof {
            use_type_invariant(self);
        }
        let ghost data = self.data@;
        let mut by_glyph: Vec<Option<char>> = Vec::new();
        let mut g: usize = 0;
        while g < 65536
            invariant
                g <= 65536,
                by_glyph@ == Seq::new(g as nat, |k: int| None::<char>),
            decreases 65536 - g,
        {
            by_glyph.push(None);
            g = g + 1;
            assert(by_glyph@ =~= Seq::new(g as nat, |k: int| None::<char>));
        }
        assert(by_glyph@ =~= empty_glyph_chars());
        let subtable_count = match face_cmap_subtable_count(self.data.as_slice()).unwrap() {
            Some(count) => count,
            None => 0,
        };
        let mut index: u16 = 0;
        let mut stopped = false;
        while index < subtable_count && !stopped
            invariant
                index <= subtable_count,
                subtable_count == subtable_count_or_zero(data),
                face_parses(data),
                data == self.data@,
                (by_glyph@, stopped) == read_subtables(data, index as nat),
                by_glyph@.len() == 65536,
            decreases subtable_count - index,
        {
            match face_subtable_is_unicode(self.data.as_slice(), index).unwrap() {
                None => {
                    stopped = true;
                },
                Some(false) => {},
                Some(true) => {
                    let codepoints = match face_subtable_codepoints(self.data.as_slice(), index).unwrap() {
                        Some(codepoints) => codepoints,
                        None => Vec::new(),
                    };
                    let ghost start = by_glyph@;
                    let mut k: usize = 0;
                    while k < codepoints.len()
                        invariant
                            k <= codepoints.len(),
                            face_parses(data),
                            data == self.data@,
                            codepoints@ == codepoints_or_none(data, index),
                            start.len() == 65536,
                            by_glyph@ == read_codepoints(data, index, start, codepoints@.take(k as int)),
                            by_glyph@.len() == 65536,
                        decreases codepoints.len() - k,
                    {
                        let codepoint = codepoints[k];
                        let ghost before = by_glyph@;
                        assert(codepoints@.take(k as int + 1).drop_last() =~= codepoints@.take(k as int));
                        assert(codepoints@.take(k as int + 1).last() == codepoint);
                        if let Some(character) = char_from_u32(codepoint) {
                            if let Some(glyph_index) = face_subtable_glyph_index(self.data.as_slice(), index, codepoint).unwrap() {
                                if glyph_index > 0 && by_glyph[glyph_index as usize].is_none() {
                                    by_glyph.set(glyph_index as usize, Some(character));
                                    proof {
                                        vstd::utf8::char_u32_cast(character, codepoint);
                                    }
                                }
                            }
                        }
                        assert(by_glyph@ == read_codepoint(data, index, before, codepoint));
                        k = k + 1;
                    }
                    assert(codepoints@.take(codepoints@.len() as int) =~= codepoints@);
                },
            }
            index = index + 1;
        }
        proof {
            if stopped {
                lemma_read_subtables_stopped(data, index as nat, subtable_count as nat);
            }
        }
        let mut ids: Vec<(u16, char)> = Vec::new();
        let mut glyph: usize = 1;
        while glyph < 65536
            invariant
                1 <= glyph <= 65536,
                by_glyph@.len() == 65536,
                ids@ == present_glyphs(by_glyph@, glyph as nat),
            decreases 65536 - glyph,
        {
            if let Some(character) = by_glyph[glyph] {
                ids.push((glyph as u16, character));
            }
            glyph = glyph + 1;
        }
        proof {
            lemma_present_glyphs_increasing(by_glyph@, 65536);
        }
        ids
    }
}

/// The glyph table of the face parsed from the data: for each glyph that a character
/// maps to, its identifier, the character and the metrics of the glyph.
pub open spec fn font_glyphs_of(data: Seq<u8>) -> Seq<(u16, char, Option<GlyphMetrics>)> {
    glyph_chars_of(data).map_values(|p: (u16, char)| (p.0, p.1, glyph_metrics_of(data, p.0)))
}

/// The widths of the glyphs of the face parsed from the data, by glyph identifier.
pub open spec fn font_widths_of(data: Seq<u8>) -> Seq<Option<u32>> {
    Seq::new(
        glyph_count_of(data) as nat,
        |g: int|
            match glyph_metrics_of(data, g as u16) {
                Some(m) => Some(m.width),
                None => None,
            },
    )
}

/// The stream that holds the data of a font file.
pub open spec fn font_file_stream(bytes: Seq<u8>) -> Obj {
    Obj::Stream(seq![(ascii("Length1"@), Obj::Integer(bytes.len() as int))], ContentModel::Bytes(bytes), false)
}

/// The stream that holds the character map of a font.
pub open spec fn cmap_stream(text: Seq<char>) -> Obj {
    Obj::Stream(Seq::empty(), ContentModel::Bytes(utf8(text)), true)
}

/// The objects of the `W` array of a font: for each run, its first glyph identifier
/// followed by the array of its widths (scaled to 1000 units per em).
pub open spec fn width_array(runs: Seq<(u16, Seq<u32>)>, units_per_em: u16) -> Seq<Obj>
    decreases runs.len(),
{
    if runs.len() == 0 {
        Seq::empty()
    } else {
        width_array(runs.drop_last(), units_per_em).push(Obj::Integer(runs.last().0 as int)).push(
            Obj::Array(runs.last().1.map_values(|w: u32| Obj::ScaledWidth(w, units_per_em))),
        )
    }
}

/// The font descriptor of a font: its name, vertical metrics, flags, the reference to the
/// stream of its file and its bounding box.
pub open spec fn font_descriptor(
    face: Seq<u8>,
    metrics: FontMetrics,
    file_id: ObjectId,
    maximum_height: nat,
    total_width: nat,
) -> Obj {
    Obj::Dictionary(
        seq![
            (ascii("Type"@), name("FontDescriptor"@)),
            (ascii("FontName"@), Obj::Name(face)),
            (ascii("Ascent"@), Obj::Integer(metrics.ascent as int)),
            (ascii("Descent"@), Obj::Integer(metrics.descent as int)),
            (ascii("CapHeight"@), Obj::Integer(metrics.ascent as int)),
            (ascii("ItalicAngle"@), Obj::Integer(0)),
            (ascii("Flags"@), Obj::Integer(32)),
            (ascii("StemV"@), Obj::Integer(80)),
            (ascii("FontFile2"@), Obj::Reference(file_id)),
            (
                ascii("FontBBox"@),
                Obj::Array(
                    seq![
                        Obj::Integer(0),
                        Obj::Integer(maximum_height as int),
                        Obj::Integer(total_width as int),
                        Obj::Integer(maximum_height as int),
                    ],
                ),
            ),
        ],
    )
}

/// The descendant (CID) font of a font.
pub open spec fn descendant_font(face: Seq<u8>, widths: Seq<Obj>, descriptor_id: ObjectId) -> Obj {
    Obj::Dictionary(
        assoc_set(
            seq![
                (ascii("Type"@), name("Font"@)),
                (ascii("Subtype"@), name("CIDFontType2"@)),
                (ascii("BaseFont"@), Obj::Name(face)),
                (
                    ascii("CIDSystemInfo"@),
                    Obj::Dictionary(
                        seq![
                            (ascii("Registry"@), Obj::Str(ascii("Adobe"@), StringFormat::Literal)),
                            (ascii("Ordering"@), Obj::Str(ascii("Identity"@), StringFormat::Literal)),
                            (ascii("Supplement"@), Obj::Integer(0)),
                        ],
                    ),
                ),
                (ascii("W"@), Obj::Array(widths)),
                (ascii("DW"@), Obj::Integer(1000)),
            ],
            ascii("FontDescriptor"@),
            Obj::Reference(descriptor_id),
        ),
    )
}

/// The (Type0) font dictionary of a font.
pub open spec fn type0_font(face: Seq<u8>, descendant: Obj, cmap_id: ObjectId) -> Seq<(Seq<u8>, Obj)> {
    seq![
        (ascii("Type"@), name("Font"@)),
        (ascii("Subtype"@), name("Type0"@)),
        (ascii("BaseFont"@), Obj::Name(face)),
        (ascii("Encoding"@), name("Identity-H"@)),
        (ascii("DescendantFonts"@), Obj::Array(seq![descendant])),
        (ascii("ToUnicode"@), Obj::Reference(cmap_id)),
    ]
}

/// The objects that inserting a font adds to a document whose largest object number is
/// `m`, and the font dictionary, given the metrics, the glyph table (its rows, largest
/// height and total width) and the width runs of the font.
pub open spec fn inserted_font(
    m: u32,
    face_identifier: Seq<char>,
    bytes: Seq<u8>,
    metrics: FontMetrics,
    blocks: Seq<Seq<(u32, u32)>>,
    maximum_height: nat,
    total_width: nat,
    runs: Seq<(u16, Seq<u32>)>,
) -> (Seq<(ObjectId, Obj)>, Seq<(Seq<u8>, Obj)>) {
    let face = utf8(face_identifier);
    let cmap_id: ObjectId = ((m + 1) as u32, 0u16);
    let file_id: ObjectId = ((m + 2) as u32, 0u16);
    let descriptor_id: ObjectId = ((m + 3) as u32, 0u16);
    (
        seq![
            (cmap_id, cmap_stream(cmap_text(face_identifier, blocks))),
            (file_id, font_file_stream(bytes)),
            (descriptor_id, font_descriptor(face, metrics, file_id, maximum_height, total_width)),
        ],
        type0_font(face, descendant_font(face, width_array(runs, metrics.units_per_em), descriptor_id), cmap_id),
    )
}

/// The objects `added` and the font dictionary are those that inserting the font into a
/// document whose largest object number is `m` gives: for the glyph table of the font
/// (sorted), its division into blocks and the runs of its widths.
pub open spec fn is_font_insertion(font: Font, m: u32, added: Seq<(ObjectId, Obj)>, dictionary: Seq<(Seq<u8>, Obj)>) -> bool {
    exists|rows: Seq<GlyphRow>, blocks: Seq<Seq<(u32, u32)>>, runs: Seq<(u16, Seq<u32>)>|
        {
            &&& #[trigger] is_glyph_table(rows, font_glyphs_of(font.spec_face_data()))
            &&& #[trigger] is_block_split(blocks, row_entries(rows))
            &&& #[trigger] is_width_runs(runs, font_widths_of(font.spec_face_data()))
            &&& (added, dictionary) == inserted_font(
                m,
                font.spec_face_identifier(),
                font.spec_bytes(),
                face_metrics_of(font.spec_face_data()),
                blocks,
                maximum_height(font_glyphs_of(font.spec_face_data())),
                total_width(font_glyphs_of(font.spec_face_data())),
                runs,
            )
        }
}

/// The `W` array built from runs of widths: for each run, its first glyph identifier, then
/// the array of its widths, each carrying the given units per em.
proof fn lemma_width_array_entries(runs: Seq<(u16, Seq<u32>)>, units_per_em: u16)
    ensures
        width_array(runs, units_per_em).len() == 2 * runs.len(),
        forall|r: int|
            0 <= r < runs.len() ==> #[trigger] width_array(runs, units_per_em)[2 * r] == Obj::Integer(runs[r].0 as int)
                && width_array(runs, units_per_em)[2 * r + 1] == Obj::Array(
                Seq::new(runs[r].1.len(), |j: int| Obj::ScaledWidth(runs[r].1[j], units_per_em)),
            ),
    decreases runs.len(),
{
    if runs.len() > 0 {
        let rest = runs.drop_last();
        lemma_width_array_entries(rest, units_per_em);
        let all = width_array(runs, units_per_em);
        let front = width_array(rest, units_per_em);
        let n = runs.len() - 1;
        assert(runs.last().1.map_values(|w: u32| Obj::ScaledWidth(w, units_per_em)) =~= Seq::new(
            runs[n].1.len(),
            |j: int| Obj::ScaledWidth(runs[n].1[j], units_per_em),
        ));
        assert forall|r: int| 0 <= r < runs.len() implies #[trigger] all[2 * r] == Obj::Integer(runs[r].0 as int) && all[2 * r + 1]
            == Obj::Array(Seq::new(runs[r].1.len(), |j: int| Obj::ScaledWidth(runs[r].1[j], units_per_em))) by {
            if r < n {
                assert(rest[r] == runs[r]);
                assert(all[2 * r] == front[2 * r]);
                assert(all[2 * r + 1] == front[2 * r + 1]);
            }
        }
    }
}

/// The widths of an inserted font: its font dictionary has one descendant font, whose `W`
/// array lists, for each run of consecutive glyphs that have a width (the runs of the
/// widths of the face), the first glyph identifier and then the widths of the run, each
/// carrying the units per em of the face, by which it is scaled to 1000 units.
pub proof fn lemma_inserted_font_widths(font: Font, m: u32, added: Seq<(ObjectId, Obj)>, dictionary: Seq<(Seq<u8>, Obj)>)
    requires
        is_font_insertion(font, m, added, dictionary),
    ensures
        exists|runs: Seq<(u16, Seq<u32>)>|
            {
                &&& #[trigger] is_width_runs(runs, font_widths_of(font.spec_face_data()))
                &&& (assoc_get(dictionary, ascii("DescendantFonts"@)) matches Some(Obj::Array(descendants)) && {
                    &&& descendants.len() == 1
                    &&& (descendants[0] matches Obj::Dictionary(descendant) && (assoc_get(descendant, ascii("W"@)) matches Some(
                        Obj::Array(widths),
                    ) && {
                        &&& widths.len() == 2 * runs.len()
                        &&& forall|r: int|
                            0 <= r < runs.len() ==> #[trigger] widths[2 * r] == Obj::Integer(runs[r].0 as int) && widths[2 * r + 1]
                                == Obj::Array(
                                Seq::new(
                                    runs[r].1.len(),
                                    |j: int| Obj::ScaledWidth(runs[r].1[j], units_per_em_of(font.spec_face_data())),
                                ),
                            )
                    }))
                })
            },
{
    let data = font.spec_face_data();
    let (rows, blocks, runs) = choose|rows: Seq<GlyphRow>, blocks: Seq<Seq<(u32, u32)>>, runs: Seq<(u16, Seq<u32>)>|
        {
            &&& #[trigger] is_glyph_table(rows, font_glyphs_of(data))
            &&& #[trigger] is_block_split(blocks, row_entries(rows))
            &&& #[trigger] is_width_runs(runs, font_widths_of(data))
            &&& (added, dictionary) == inserted_font(
                m,
                font.spec_face_identifier(),
                font.spec_bytes(),
                face_metrics_of(data),
                blocks,
                maximum_height(font_glyphs_of(data)),
                total_width(font_glyphs_of(data)),
                runs,
            )
        };
    reveal_strlit("DescendantFonts");
    reveal_strlit("ToUnicode");
    reveal_strlit("W");
    reveal_strlit("DW");
    reveal_strlit("FontDescriptor");
    let upem = units_per_em_of(data);
    let face = utf8(font.spec_face_identifier());
    let widths = width_array(runs, upem);
    lemma_width_array_entries(runs, upem);
    let descriptor_id: ObjectId = ((m + 3) as u32, 0u16);
    let cmap_id: ObjectId = ((m + 1) as u32, 0u16);
    let descendant_obj = descendant_font(face, widths, descriptor_id);
    assert(dictionary == type0_font(face, descendant_obj, cmap_id));
    let w_key = ascii("W"@);
    assert(w_key.len() == 1);
    assert(ascii("DW"@).len() == 2);
    assert(ascii("FontDescriptor"@).len() == 14);
    assert(ascii("DescendantFonts"@).len() == 15);
    assert(ascii("ToUnicode"@).len() == 9);
    lemma_assoc_get_at(dictionary, 4);
    let inner = seq![
        (ascii("Type"@), name("Font"@)),
        (ascii("Subtype"@), name("CIDFontType2"@)),
        (ascii("BaseFont"@), Obj::Name(face)),
        (
            ascii("CIDSystemInfo"@),
            Obj::Dictionary(
                seq![
                    (ascii("Registry"@), Obj::Str(ascii("Adobe"@), StringFormat::Literal)),
                    (ascii("Ordering"@), Obj::Str(ascii("Identity"@), StringFormat::Literal)),
                    (ascii("Supplement"@), Obj::Integer(0)),
                ],
            ),
        ),
        (ascii("W"@), Obj::Array(widths)),
        (ascii("DW"@), Obj::Integer(1000)),
    ];
    lemma_assoc_get_at(inner, 4);
    crate::pdf_object::lemma_assoc_set_get(inner, ascii("FontDescriptor"@), Obj::Reference(descriptor_id), w_key);
    assert forall|r: int| 0 <= r < runs.len() implies #[trigger] widths[2 * r] == Obj::Integer(runs[r].0 as int) && widths[2 * r + 1]
        == Obj::Array(Seq::new(runs[r].1.len(), |j: int| Obj::ScaledWidth(runs[r].1[j], units_per_em_of(data)))) by {
        assert(width_array(runs, upem)[2 * r] == Obj::Integer(runs[r].0 as int));
    }
}

/// Inserting a font into a document whose largest object number is given adds the same
/// objects and gives the same font dictionary every time.
pub proof fn lemma_font_insertion_unique(
    font: Font,
    m: u32,
    added_a: Seq<(ObjectId, Obj)>,
    dictionary_a: Seq<(Seq<u8>, Obj)>,
    added_b: Seq<(ObjectId, Obj)>,
    dictionary_b: Seq<(Seq<u8>, Obj)>,
)
    requires
        is_font_insertion(font, m, added_a, dictionary_a),
        is_font_insertion(font, m, added_b, dictionary_b),
    ensures
        added_a == added_b,
        dictionary_a == dictionary_b,
{
    let data = font.spec_face_data();
    let (rows_a, blocks_a, runs_a) = choose|rows: Seq<GlyphRow>, blocks: Seq<Seq<(u32, u32)>>, runs: Seq<(u16, Seq<u32>)>|
        {
            &&& #[trigger] is_glyph_table(rows, font_glyphs_of(data))
            &&& #[trigger] is_block_split(blocks, row_entries(rows))
            &&& #[trigger] is_width_runs(runs, font_widths_of(data))
            &&& (added_a, dictionary_a) == inserted_font(
                m,
                font.spec_face_identifier(),
                font.spec_bytes(),
                face_metrics_of(data),
                blocks,
                maximum_height(font_glyphs_of(data)),
                total_width(font_glyphs_of(data)),
                runs,
            )
        };
    let (rows_b, blocks_b, runs_b) = choose|rows: Seq<GlyphRow>, blocks: Seq<Seq<(u32, u32)>>, runs: Seq<(u16, Seq<u32>)>|
        {
            &&& #[trigger] is_glyph_table(rows, font_glyphs_of(data))
            &&& #[trigger] is_block_split(blocks, row_entries(rows))
            &&& #[trigger] is_width_runs(runs, font_widths_of(data))
            &&& (added_b, dictionary_b) == inserted_font(
                m,
                font.spec_face_identifier(),
                font.spec_bytes(),
                face_metrics_of(data),
                blocks,
                maximum_height(font_glyphs_of(data)),
                total_width(font_glyphs_of(data)),
                runs,
            )
        };
    lemma_glyph_table_unique(rows_a, rows_b, font_glyphs_of(data));
    lemma_block_split_unique(blocks_a, blocks_b, row_entries(rows_a));
    lemma_width_runs_unique(runs_a, runs_b, font_widths_of(data));
}

/// The total width of glyphs whose widths are at most 65535 is at most 65535 per glyph.
proof fn lemma_total_width_bound(glyphs: Seq<(u16, char, Option<GlyphMetrics>)>)
    requires
        forall|i: int| 0 <= i < glyphs.len() ==> (#[trigger] glyphs[i].2 matches Some(m) ==> m.width <= 65535),
    ensures
        total_width(glyphs) <= 65535 * glyphs.len(),
    decreases glyphs.len(),
{
    if glyphs.len() > 0 {
        assert forall|i: int| 0 <= i < glyphs.drop_last().len() implies (#[trigger] glyphs.drop_last()[i].2 matches Some(m) ==> m.width <= 65535) by {
            assert(glyphs.drop_last()[i] == glyphs[i]);
        }
        lemma_total_width_bound(glyphs.drop_last());
        assert(glyphs.last() == glyphs[glyphs.len() - 1]);
    }
}

/// A font loaded from a TTF font: the data it was loaded from, its face and the identifier
/// of the face in the document.
#[derive(Debug)]
pub struct Font {
    bytes: Vec<u8>,
    ttf_face: TtfFontFace,
    face_identifier: String,
}

impl Font {
    /// The data the font was loaded from.
    pub closed spec fn spec_bytes(&self) -> Seq<u8> {
        self.bytes@
    }

    /// The identifier of the font face.
    pub closed spec fn spec_face_identifier(&self) -> Seq<char> {
        self.face_identifier@
    }

    /// The number of units per em of the font face.
    pub closed spec fn spec_units_per_em(&self) -> u16 {
        self.ttf_face.spec_units_per_em()
    }

    /// The data the font face is parsed from.
    pub closed spec fn spec_face_data(&self) -> Seq<u8> {
        self.ttf_face.spec_data()
    }

    /// A font from its data, its parsed face and the identifier of the face.
    pub fn new(bytes: Vec<u8>, ttf_face: TtfFontFace, face_identifier: String) -> (font: Font)
        ensures
            font.spec_bytes() == bytes@,
            font.spec_face_identifier() == face_identifier@,
            font.spec_units_per_em() == ttf_face.spec_units_per_em(),
            font.spec_face_data() == ttf_face.spec_data(),
    {
        Font { bytes, ttf_face, face_identifier }
    }

    /// The identifier of the font face.
    pub fn face_identifier(&self) -> (s: &String)
        ensures
            s@ == self.spec_face_identifier(),
    {
        &self.face_identifier
    }

    /// The glyph identifier of a character in the font.
    pub fn glyph_id(&self, codepoint: char) -> (r: Option<u16>)
        ensures
            r == glyph_index_of(self.spec_face_data(), codepoint),
    {
        self.ttf_face.glyph_id(codepoint)
    }

    /// Inserts the font into the document: its character map, the stream of its file and its
    /// font descriptor are stored as new objects, and the font dictionary is returned.
    #[verifier::rlimit(60)]
    #[verifier::spinoff_prover]
    pub fn insert_into_document(&self, store: &mut ObjectStore) -> (font_dictionary: Dictionary)
        requires
            old(store).well_formed(),
            old(store).max_id + 3 <= u32::MAX,
            self.spec_bytes().len() <= i64::MAX,
        ensures
            final(store).well_formed(),
            final(store).max_id == old(store).max_id + 3,
            final(store).trailer == old(store).trailer,
            final(store).version == old(store).version,
            final(store).model().len() == old(store).model().len() + 3,
            final(store).model().take(old(store).model().len() as int) == old(store).model(),
            forall|k: ObjectId|
                #[trigger] has_key(final(store).model(), k) ==> has_key(old(store).model(), k) || k.0 > old(store).max_id,
            forall|i: int|
                0 <= i < 3 ==> (#[trigger] final(store).model()[old(store).model().len() + i]).0 == (
                (old(store).max_id + i + 1) as u32,
                0u16,
            ),
            is_font_insertion(
                *self,
                old(store).max_id,
                final(store).model().skip(old(store).model().len() as int),
                font_dictionary.model(),
            ),
    {
        let ghost m = store.max_id;
        let ghost start = store.model();
        let ghost data = self.spec_face_data();
        let face_metrics = self.ttf_face.font_metrics();
        let face_bytes = utf8_bytes(self.face_identifier.as_str());

        // The glyph table, from the glyph identifiers of the characters and their metrics
        let ids = self.ttf_face.glyph_ids();
        let mut glyphs: Vec<(u16, char, Option<GlyphMetrics>)> = Vec::new();
        let mut k: usize = 0;
        while k < ids.len()
            invariant
                k <= ids.len(),
                glyphs@.len() == k,
                forall|i: int| 0 <= i < ids@.len() ==> #[trigger] ids@[i].0 > 0,
                forall|i: int, j: int| 0 <= i < j < ids@.len() ==> #[trigger] ids@[i].0 < #[trigger] ids@[j].0,
                ids@ == glyph_chars_of(data),
                data == self.spec_face_data(),
                forall|i: int| 0 <= i < k ==> #[trigger] glyphs@[i] == font_glyphs_of(data)[i],
                forall|i: int| 0 <= i < k ==> #[trigger] glyphs@[i].0 == ids@[i].0 && glyphs@[i].1 == ids@[i].1,
                forall|i: int| 0 <= i < k ==> (#[trigger] glyphs@[i].2 matches Some(gm) ==> gm.width <= 65535),
            decreases ids.len() - k,
        {
            let (glyph_id, character) = ids[k];
            let metrics = self.ttf_face.glyph_metrics(glyph_id);
            glyphs.push((glyph_id, character, metrics));
            proof {
                assert(glyphs@[k as int] == (glyph_id, character, metrics));
                assert(metrics matches Some(gm) ==> gm.width <= 65535);
            }
            k = k + 1;
        }
        assert(glyphs@ =~= font_glyphs_of(data));
        proof {
            assert(glyphs_valid(glyphs@)) by {
                assert forall|i: int, j: int| 0 <= i < j < glyphs@.len() implies #[trigger] glyphs@[i].0 != #[trigger] glyphs@[j].0 by {
                    assert(ids@[i].0 < ids@[j].0);
                }
            }
            assert(ids@.len() <= 65535) by {
                lemma_increasing_positive_count(ids@);
            }
            lemma_total_width_bound(glyphs@);
            assert(65535 * glyphs@.len() <= 65535 * 65535) by (nonlinear_arith)
                requires glyphs@.len() <= 65535;
        }
        let (rows, maximum_character_height, total) = glyph_table(&glyphs);
        proof {
            lemma_table_rows_bounded(glyphs@);
            assert forall|i: int| 0 <= i < rows@.len() implies #[trigger] rows@[i].0 < 65536 by {
                assert(rows@.to_set().contains(rows@[i]));
            }
        }
        let blocks = gid_blocks(&rows);
        let ghost blocks_model = blocks_view(blocks@);
        let cmap = generate_cid_to_unicode_map(self.face_identifier.clone(), blocks);
        let cmap_bytes = utf8_bytes(cmap.as_str());
        let cmap_stream_object = PdfObject::Stream(
            PdfStream { dict: Dictionary::new(), content: StreamContent::Bytes(cmap_bytes), allows_compression: true },
        );
        assert(cmap_stream_object.model() == cmap_stream(cmap_text(self.face_identifier@, blocks_model)));
        let cmap_id = store.add_object(cmap_stream_object);

        // The widths of the glyphs, grouped into runs of consecutive glyph identifiers
        let glyph_count = self.ttf_face.glyph_count();
        let mut widths: Vec<Option<u32>> = Vec::new();
        let mut glyph_id: u16 = 0;
        while glyph_id < glyph_count
            invariant
                widths@.len() == glyph_id,
                glyph_id <= glyph_count,
                glyph_count == glyph_count_of(data),
                data == self.spec_face_data(),
                forall|i: int| 0 <= i < glyph_id ==> #[trigger] widths@[i] == font_widths_of(data)[i],
            decreases glyph_count - glyph_id,
        {
            let width = match self.ttf_face.glyph_metrics(glyph_id) {
                Some(metrics) => Some(metrics.width),
                None => None,
            };
            widths.push(width);
            glyph_id = glyph_id + 1;
        }
        assert(widths@ =~= font_widths_of(data));
        let runs = width_runs(&widths);
        let width_objects = self.width_objects(&runs, face_metrics.units_per_em);

        // The font file, the descriptor and the font dictionaries
        let mut length_entries: Vec<(Vec<u8>, PdfObject)> = new_entries();
        add_entry(&mut length_entries, "Length1", PdfObject::Integer(self.bytes.len() as i64));
        let font_stream = PdfObject::Stream(
            PdfStream {
                dict: Dictionary::from_entries(length_entries),
                content: StreamContent::Bytes(vstd::slice::slice_to_vec(self.bytes.as_slice())),
                allows_compression: false,
            },
        );
        assert(font_stream.model() =~~= font_file_stream(self.bytes@));
        let file_id = store.add_object(font_stream);
        let mut bounding_box: Vec<PdfObject> = new_items();
        add_item(&mut bounding_box, PdfObject::Integer(0));
        add_item(&mut bounding_box, PdfObject::Integer(maximum_character_height as i64));
        add_item(&mut bounding_box, PdfObject::Integer(total as i64));
        add_item(&mut bounding_box, PdfObject::Integer(maximum_character_height as i64));
        let mut descriptor_entries: Vec<(Vec<u8>, PdfObject)> = new_entries();
        add_entry(&mut descriptor_entries, "Type", name_object("FontDescriptor"));
        add_entry(&mut descriptor_entries, "FontName", PdfObject::Name(utf8_bytes(self.face_identifier.as_str())));
        add_entry(&mut descriptor_entries, "Ascent", PdfObject::Integer(face_metrics.ascent as i64));
        add_entry(&mut descriptor_entries, "Descent", PdfObject::Integer(face_metrics.descent as i64));
        add_entry(&mut descriptor_entries, "CapHeight", PdfObject::Integer(face_metrics.ascent as i64));
        add_entry(&mut descriptor_entries, "ItalicAngle", PdfObject::Integer(0));
        add_entry(&mut descriptor_entries, "Flags", PdfObject::Integer(32));
        add_entry(&mut descriptor_entries, "StemV", PdfObject::Integer(80));
        add_entry(&mut descriptor_entries, "FontFile2", PdfObject::Reference(file_id));
        add_entry(&mut descriptor_entries, "FontBBox", array_object(bounding_box));
        proof {
            let face = utf8(self.spec_face_identifier());
            let file_id_spec: ObjectId = ((m + 2) as u32, 0u16);
            assert(objects_model(bounding_box@) =~= seq![
                        Obj::Integer(0),
                        Obj::Integer(maximum_height(glyphs@) as int),
                        Obj::Integer(total_width(glyphs@) as int),
                        Obj::Integer(maximum_height(glyphs@) as int),
                    ]);
            let expected = font_descriptor(face, face_metrics, file_id_spec, maximum_height(glyphs@), total_width(glyphs@));
            assert(entries_model(descriptor_entries@) =~= expected->Dictionary_0);
        }
        let descriptor = PdfObject::Dictionary(Dictionary::from_entries(descriptor_entries));
        let ghost descriptor_model = descriptor.model();
        let descriptor_id = store.add_object(descriptor);

        let mut system_info_entries: Vec<(Vec<u8>, PdfObject)> = new_entries();
        add_entry(&mut system_info_entries, "Registry", PdfObject::String(ascii_bytes("Adobe"), StringFormat::Literal));
        add_entry(&mut system_info_entries, "Ordering", PdfObject::String(ascii_bytes("Identity"), StringFormat::Literal));
        add_entry(&mut system_info_entries, "Supplement", PdfObject::Integer(0));
        let mut descendant_entries: Vec<(Vec<u8>, PdfObject)> = new_entries();
        add_entry(&mut descendant_entries, "Type", name_object("Font"));
        add_entry(&mut descendant_entries, "Subtype", name_object("CIDFontType2"));
        add_entry(&mut descendant_entries, "BaseFont", PdfObject::Name(utf8_bytes(self.face_identifier.as_str())));
        add_entry(&mut descendant_entries, "CIDSystemInfo", PdfObject::Dictionary(Dictionary::from_entries(system_info_entries)));
        add_entry(&mut descendant_entries, "W", array_object(width_objects));
        add_entry(&mut descendant_entries, "DW", PdfObject::Integer(1000));
        proof {
            let face = utf8(self.spec_face_identifier());
            let expected = descendant_font(face, width_array(runs_view(runs@), face_metrics.units_per_em), descriptor_id);
            assert(entries_model(system_info_entries@) =~= seq![
                            (ascii("Registry"@), Obj::Str(ascii("Adobe"@), StringFormat::Literal)),
                            (ascii("Ordering"@), Obj::Str(ascii("Identity"@), StringFormat::Literal)),
                            (ascii("Supplement"@), Obj::Integer(0)),
                        ]);
            assert(entries_model(descendant_entries@) =~= seq![
                (ascii("Type"@), name("Font"@)),
                (ascii("Subtype"@), name("CIDFontType2"@)),
                (ascii("BaseFont"@), Obj::Name(face)),
                (
                    ascii("CIDSystemInfo"@),
                    Obj::Dictionary(
                        seq![
                            (ascii("Registry"@), Obj::Str(ascii("Adobe"@), StringFormat::Literal)),
                            (ascii("Ordering"@), Obj::Str(ascii("Identity"@), StringFormat::Literal)),
                            (ascii("Supplement"@), Obj::Integer(0)),
                        ],
                    ),
                ),
                (ascii("W"@), Obj::Array(width_array(runs_view(runs@), face_metrics.units_per_em))),
                (ascii("DW"@), Obj::Integer(1000)),
            ]);
        }
        let mut descendant = Dictionary::from_entries(descendant_entries);
        descendant.set(ascii_bytes("FontDescriptor"), PdfObject::Reference(descriptor_id));
        let mut descendants: Vec<PdfObject> = new_items();
        add_item(&mut descendants, PdfObject::Dictionary(descendant));

        let mut font_entries: Vec<(Vec<u8>, PdfObject)> = new_entries();
        add_entry(&mut font_entries, "Type", name_object("Font"));
        add_entry(&mut font_entries, "Subtype", name_object("Type0"));
        add_entry(&mut font_entries, "BaseFont", PdfObject::Name(face_bytes));
        add_entry(&mut font_entries, "Encoding", name_object("Identity-H"));
        add_entry(&mut font_entries, "DescendantFonts", array_object(descendants));
        add_entry(&mut font_entries, "ToUnicode", PdfObject::Reference(cmap_id));
        proof {
            let face = utf8(self.spec_face_identifier());
            let expected_descendant = descendant_font(face, width_array(runs_view(runs@), face_metrics.units_per_em), descriptor_id);
            assert(objects_model(descendants@) =~= seq![expected_descendant]);
            assert(entries_model(font_entries@) =~= type0_font(face, expected_descendant, cmap_id));
        }
        let font_dictionary = Dictionary::from_entries(font_entries);
        proof {
            let (added, dictionary) = inserted_font(
                m,
                self.spec_face_identifier(),
                self.spec_bytes(),
                face_metrics,
                blocks_model,
                maximum_height(glyphs@),
                total_width(glyphs@),
                runs_view(runs@),
            );
            assert(descriptor_model == added[2].1);
            assert(store.model() =~~= start + added);
            assert(font_dictionary.model() == dictionary);
            assert(store.model().skip(start.len() as int) =~~= added);
            assert(store.model().take(start.len() as int) =~~= start);
            assert(is_glyph_table(rows@, font_glyphs_of(data)));
            assert(is_block_split(blocks_model, row_entries(rows@)));
            assert(is_width_runs(runs_view(runs@), font_widths_of(data)));
        }
        font_dictionary
    }

    /// The objects of the `W` array: for each run its first glyph identifier and the array
    /// of its widths.
    fn width_objects(&self, runs: &Vec<(u16, Vec<u32>)>, units_per_em: u16) -> (objects: Vec<PdfObject>)
        ensures
            objects_model(objects@) == width_array(runs_view(runs@), units_per_em),
    {
        let mut objects: Vec<PdfObject> = new_items();
        let mut i: usize = 0;
        assert(runs_view(runs@).take(0) =~= Seq::<(u16, Seq<u32>)>::empty());
        while i < runs.len()
            invariant
                i <= runs.len(),
                objects_model(objects@) == width_array(runs_view(runs@).take(i as int), units_per_em),
            decreases runs.len() - i,
        {
            let first = runs[i].0;
            let mut scaled: Vec<PdfObject> = new_items();
            assert(objects_model(scaled@) =~= runs[i as int].1@.take(0).map_values(|w: u32| Obj::ScaledWidth(w, units_per_em)));
            let mut j: usize = 0;
            while j < runs[i].1.len()
                invariant
                    i < runs.len(),
                    j <= runs[i as int].1.len(),
                    objects_model(scaled@) == runs[i as int].1@.take(j as int).map_values(|w: u32| Obj::ScaledWidth(w, units_per_em)),
                decreases runs[i as int].1.len() - j,
            {
                let ghost previous = objects_model(scaled@);
                add_item(&mut scaled, PdfObject::ScaledWidth(runs[i].1[j], units_per_em));
                assert(runs[i as int].1@.take(j as int + 1) =~= runs[i as int].1@.take(j as int).push(runs[i as int].1@[j as int]));
                j = j + 1;
                assert(objects_model(scaled@) =~= runs[i as int].1@.take(j as int).map_values(|w: u32| Obj::ScaledWidth(w, units_per_em)));
            }
            assert(runs[i as int].1@.take(j as int) =~= runs[i as int].1@);
            add_item(&mut objects, PdfObject::Integer(first as i64));
            add_item(&mut objects, array_object(scaled));
            let ghost view_prefix = runs_view(runs@).take(i as int + 1);
            assert(view_prefix.drop_last() =~= runs_view(runs@).take(i as int));
            assert(objects_model(objects@) =~= width_array(view_prefix, units_per_em));
            i = i + 1;
        }
        assert(runs_view(runs@).take(runs@.len() as int) =~= runs_view(runs@));
        objects
    }
}

/// The rows of a glyph table have glyph identifiers below 65536.
proof fn lemma_table_rows_bounded(glyphs: Seq<(u16, char, Option<GlyphMetrics>)>)
    ensures
        forall|r: GlyphRow| #[trigger] glyph_table_rows(glyphs).contains(r) ==> r.0 < 65536,
    decreases glyphs.len(),
{
    if glyphs.len() > 0 {
        lemma_table_rows_bounded(glyphs.drop_last());
        let last = glyphs.last();
        assert(glyph_row(last).0 < 65536);
        assert forall|r: GlyphRow| #[trigger] glyph_table_rows(glyphs).contains(r) implies r.0 < 65536 by {
            if r != glyph_row(last) {
                assert(glyph_table_rows(glyphs.drop_last()).contains(r));
            }
        }
    } else {
        assert forall|r: GlyphRow| #[trigger] glyph_table_rows(glyphs).contains(r) implies r.0 < 65536 by {
            assert(set![(0u32, 0u32, 1000u32, 1000u32)].contains(r) ==> r == (0u32, 0u32, 1000u32, 1000u32));
        }
    }
}

/// Strictly increasing positive numbers below 65536 are at most 65535.
proof fn lemma_increasing_positive_count(ids: Seq<(u16, char)>)
    requires
        forall|i: int| 0 <= i < ids.len() ==> #[trigger] ids[i].0 > 0,
        forall|i: int, j: int| 0 <= i < j < ids.len() ==> #[trigger] ids[i].0 < #[trigger] ids[j].0,
    ensures
        ids.len() <= 65535,
{
    if ids.len() > 65535 {
        assert forall|i: int| 0 <= i < ids.len() implies #[trigger] ids[i].0 >= i + 1 by {
            lemma_increasing_lower_bound(ids, i);
        }
        assert(ids[65535].0 >= 65536);
    }
}

proof fn lemma_increasing_lower_bound(ids: Seq<(u16, char)>, i: int)
    requires
        0 <= i < ids.len(),
        forall|i: int| 0 <= i < ids.len() ==> #[trigger] ids[i].0 > 0,
        forall|i: int, j: int| 0 <= i < j < ids.len() ==> #[trigger] ids[i].0 < #[trigger] ids[j].0,
    ensures
        ids[i].0 >= i + 1,
    decreases i,
{
    if i > 0 {
        lemma_increasing_lower_bound(ids, i - 1);
        assert(ids[i - 1].0 < ids[i].0);
    }
}

} // verus!
