use textr::document::{font_paths, Document, Operation};
use textr::document_configuration::{DocumentConfiguration, FontAssociation};
use textr::font::{FontMetrics, GlyphMetrics, TtfFontFace};
use textr::pdf::{PdfDocument, PdfLayer};
use textr::pdf_object::{ContentOperation, Operand, PdfObject, Real, StreamContent, StringFormat};

fn push_u16(bytes: &mut Vec<u8>, value: u16) {
    bytes.extend_from_slice(&value.to_be_bytes());
}

fn push_u32(bytes: &mut Vec<u8>, value: u32) {
    bytes.extend_from_slice(&value.to_be_bytes());
}

/// A TrueType font of four glyphs (.notdef, A, B, C), with advances 500, 600, 700 and 800,
/// 1000 units per em, an ascender of 800 and a descender of -200, and no outlines.
fn tiny_font() -> Vec<u8> {
    let mut cmap = Vec::new();
    push_u16(&mut cmap, 0);
    push_u16(&mut cmap, 1);
    push_u16(&mut cmap, 3);
    push_u16(&mut cmap, 1);
    push_u32(&mut cmap, 12);
    push_u16(&mut cmap, 4);
    push_u16(&mut cmap, 32);
    push_u16(&mut cmap, 0);
    push_u16(&mut cmap, 4);
    push_u16(&mut cmap, 4);
    push_u16(&mut cmap, 1);
    push_u16(&mut cmap, 0);
    push_u16(&mut cmap, 0x43);
    push_u16(&mut cmap, 0xFFFF);
    push_u16(&mut cmap, 0);
    push_u16(&mut cmap, 0x41);
    push_u16(&mut cmap, 0xFFFF);
    push_u16(&mut cmap, 0xFFC0);
    push_u16(&mut cmap, 1);
    push_u16(&mut cmap, 0);
    push_u16(&mut cmap, 0);

    let mut head = Vec::new();
    push_u32(&mut head, 0x0001_0000);
    push_u32(&mut head, 0x0001_0000);
    push_u32(&mut head, 0);
    push_u32(&mut head, 0x5F0F_3CF5);
    push_u16(&mut head, 0);
    push_u16(&mut head, 1000);
    head.extend_from_slice(&[0u8; 16]);
    push_u16(&mut head, 0);
    push_u16(&mut head, (-200i16) as u16);
    push_u16(&mut head, 1000);
    push_u16(&mut head, 800);
    push_u16(&mut head, 0);
    push_u16(&mut head, 8);
    push_u16(&mut head, 2);
    push_u16(&mut head, 0);
    push_u16(&mut head, 0);

    let mut hhea = Vec::new();
    push_u32(&mut hhea, 0x0001_0000);
    push_u16(&mut hhea, 800);
    push_u16(&mut hhea, (-200i16) as u16);
    push_u16(&mut hhea, 0);
    hhea.extend_from_slice(&[0u8; 24]);
    push_u16(&mut hhea, 4);

    let mut hmtx = Vec::new();
    for advance in [500u16, 600, 700, 800] {
        push_u16(&mut hmtx, advance);
        push_u16(&mut hmtx, 0);
    }

    let mut maxp = Vec::new();
    push_u32(&mut maxp, 0x0000_5000);
    push_u16(&mut maxp, 4);

    let tables: Vec<(&[u8; 4], Vec<u8>)> = vec![(b"cmap", cmap), (b"head", head), (b"hhea", hhea), (b"hmtx", hmtx), (b"maxp", maxp)];
    let mut font = Vec::new();
    push_u32(&mut font, 0x0001_0000);
    push_u16(&mut font, tables.len() as u16);
    push_u16(&mut font, 64);
    push_u16(&mut font, 2);
    push_u16(&mut font, 16);
    let mut offset = 12 + 16 * tables.len() as u32;
    for (tag, data) in tables.iter() {
        font.extend_from_slice(*tag);
        push_u32(&mut font, 0);
        push_u32(&mut font, offset);
        push_u32(&mut font, data.len() as u32);
        offset += data.len() as u32;
    }
    for (_, data) in tables.iter() {
        font.extend_from_slice(data);
    }
    font
}

fn operators(layer: &PdfLayer) -> Vec<String> {
    layer.operations().iter().map(|operation| operation.operator.clone()).collect()
}

fn glyph_string(operation: &ContentOperation) -> Vec<u8> {
    match &operation.operands[0] {
        Operand::String(bytes, StringFormat::Hexadecimal) => bytes.clone(),
        _ => panic!("not a hexadecimal string"),
    }
}

#[test]
fn font_face_is_read_from_its_data() {
    let face = TtfFontFace::from_bytes(&tiny_font()).unwrap();
    assert_eq!(face.font_metrics(), FontMetrics { ascent: 800, descent: -200, units_per_em: 1000 });
    assert_eq!(face.glyph_count(), 4);
    assert_eq!(face.glyph_id('A'), Some(1));
    assert_eq!(face.glyph_id('C'), Some(3));
    assert_eq!(face.glyph_id('Z'), None);
    assert_eq!(face.glyph_metrics(2), Some(GlyphMetrics { width: 700, height: 1000 }));
    assert_eq!(face.glyph_ids(), vec![(1, 'A'), (2, 'B'), (3, 'C')]);
}

#[test]
fn font_face_refuses_data_that_is_no_font() {
    let error = TtfFontFace::from_bytes(&[1, 2, 3, 4]).err().unwrap();
    assert_eq!(error.context, "Failed to parse font");
    assert_eq!(error.source_error, Some("unknown magic".to_string()));
}

#[test]
fn pages_are_added_with_one_layer() {
    let mut document = PdfDocument::new("document".to_string());
    assert_eq!(document.add_page_with_layer(210.0f32.to_bits(), 297.0f32.to_bits()), (0, 0));
    assert_eq!(document.add_page_with_layer(100.0f32.to_bits(), 100.0f32.to_bits()), (1, 0));
    let pages = document.pages();
    assert_eq!(pages.len(), 2);
    assert_eq!(pages[0].number(), 1);
    assert_eq!(pages[1].number(), 2);
    assert_eq!(pages[0].width, Real::Millimeters(210.0f32.to_bits()));
    assert_eq!(pages[0].layers.len(), 1);
    assert_eq!(pages[0].layers[0].name(), "Layer0");
    assert!(pages[0].layers[0].operations().is_empty());
}

#[test]
fn fonts_are_added_in_order_and_refused_when_they_do_not_parse() {
    let mut document = PdfDocument::new("document".to_string());
    assert_eq!(document.add_font(tiny_font()).unwrap(), 0);
    assert_eq!(document.add_font(tiny_font()).unwrap(), 1);
    assert_eq!(document.inner_document.max_id, 2);
    let font = document.get_font(1).unwrap();
    assert_eq!(font.0, (2, 0));
    assert_eq!(font.1.face_identifier(), "F1");
    let error = document.add_font(vec![0, 1, 0, 0]).err().unwrap();
    assert_eq!(error.context, "Failed to parse font");
    assert_eq!(error.source_error, Some("Failed to parse font: malformed font".to_string()));
    assert_eq!(document.inner_document.max_id, 2);
    let error = document.get_font(7).err().unwrap();
    assert_eq!(error.context, "Failed to find font 7 into the fonts map");
}

#[test]
fn text_is_written_as_glyph_identifiers_onto_its_layer() {
    let mut document = PdfDocument::new("document".to_string());
    let font = document.add_font(tiny_font()).unwrap();
    let (page, layer) = document.add_page_with_layer(210.0f32.to_bits(), 297.0f32.to_bits());
    document
        .write_text_to_layer_in_page(page, layer, [0, 0, 0], "AxC".to_string(), font, 12.0f32.to_bits(), [1, 2])
        .unwrap();
    let layer = &document.pages()[0].layers[0];
    assert_eq!(operators(layer), vec!["BT", "Tf", "Td", "rg", "Tj", "ET"]);
    assert_eq!(glyph_string(&layer.operations()[4]), vec![0, 1, 0, 3]);
    match &layer.operations()[1].operands[0] {
        Operand::Name(name) => assert_eq!(name, b"F0"),
        _ => panic!("the font is a name"),
    }
    assert!(matches!(layer.operations()[1].operands[1], Operand::Real(Real::Value(bits)) if bits == 12.0f32.to_bits()));
    assert!(matches!(layer.operations()[2].operands[0], Operand::Real(Real::Millimeters(1))));
}

#[test]
fn text_is_normalized_before_it_is_shown() {
    let mut document = PdfDocument::new("document".to_string());
    let font = document.add_font(tiny_font()).unwrap();
    document.add_page_with_layer(1, 1);
    // "A" followed by a combining ring becomes "Å", which the font does not have
    document.write_text_to_layer_in_page(0, 0, [0, 0, 0], "A\u{30A}B".to_string(), font, 1, [0, 0]).unwrap();
    let layer = &document.pages()[0].layers[0];
    assert_eq!(glyph_string(&layer.operations()[4]), vec![0, 2]);
}

#[test]
fn writing_text_fails_without_font_page_or_layer() {
    let mut document = PdfDocument::new("document".to_string());
    let font = document.add_font(tiny_font()).unwrap();
    let error = document.write_text_to_layer_in_page(0, 0, [0, 0, 0], "A".to_string(), 3, 1, [0, 0]).err().unwrap();
    assert_eq!(error.context, "Failed to find font 3 into the fonts map");
    let error = document.write_text_to_layer_in_page(0, 0, [0, 0, 0], "A".to_string(), font, 1, [0, 0]).err().unwrap();
    assert_eq!(error.context, "Failed to find the page with index 0");
    document.add_page_with_layer(1, 1);
    let error = document.write_text_to_layer_in_page(0, 1, [0, 0, 0], "A".to_string(), font, 1, [0, 0]).err().unwrap();
    assert_eq!(error.context, "Failed to find the layer with index 1");
    assert!(document.pages()[0].layers[0].operations().is_empty());
}

#[test]
fn writing_a_document_stores_all_its_objects() {
    let mut document = PdfDocument::new("QU2KK7yivMeRDnU8DodEQxnfqJAe4wZ2".to_string());
    let font = document.add_font(tiny_font()).unwrap();
    let (page, layer) = document.add_page_with_layer(300.0f32.to_bits(), 500.0f32.to_bits());
    document.write_text_to_layer_in_page(page, layer, [0, 0, 0], "ABC".to_string(), font, 48, [50, 200]).unwrap();
    document.write_all("DLjCAhuTD3cvaoQCJnMvkC0iNWEGEfyD".to_string()).unwrap();

    let store = &document.inner_document;
    // font id, info, pages, usage, intent, one group, catalog, three font objects, fonts,
    // and three objects for the page
    assert_eq!(store.max_id, 1 + 4 + 1 + 1 + 3 + 1 + 3);
    assert_eq!(store.objects.len(), 14);
    let trailer_keys: Vec<Vec<u8>> = store.trailer.entries.iter().map(|entry| entry.0.clone()).collect();
    assert_eq!(trailer_keys, vec![b"Root".to_vec(), b"Info".to_vec(), b"ID".to_vec()]);
    assert!(matches!(store.trailer.entries[0].1, PdfObject::Reference((7, 0))));
    assert!(matches!(store.trailer.entries[1].1, PdfObject::Reference((2, 0))));
    assert_eq!(store.objects[0].0, (2, 0));
    let info = match &store.objects[0].1 {
        PdfObject::Dictionary(info) => info,
        _ => panic!("the information is a dictionary"),
    };
    assert!(matches!(&info.entries[1].1, PdfObject::String(date, StringFormat::Literal) if date == b"D:19700101000000+00'00'"));
    // the font dictionary is stored under the number given out when the font was added
    assert!(store.objects.iter().any(|object| object.0 == (1, 0)));
    // the dictionary of pages comes last, under the number given out for it
    assert_eq!(store.objects[13].0, (3, 0));
    // the layer is wrapped into its optional content group
    let layer = &document.pages()[0].layers[0];
    assert_eq!(operators(layer), vec!["BDC", "q", "BT", "Tf", "Td", "rg", "Tj", "ET", "Q", "EMC"]);
    match &layer.operations()[0].operands[1] {
        Operand::Name(name) => assert_eq!(name, b"MC0"),
        _ => panic!("the group is a name"),
    }
    // the content stream of the page holds that layer
    let content = store.objects.iter().find(|object| object.0 == (13, 0)).unwrap();
    match &content.1 {
        PdfObject::Stream(stream) => match &stream.content {
            StreamContent::Layers(layers) => assert_eq!(layers.len(), 1),
            _ => panic!("the content is made of layers"),
        },
        _ => panic!("the content is a stream"),
    }
}

fn written_document() -> PdfDocument {
    let mut document = PdfDocument::new("QU2KK7yivMeRDnU8DodEQxnfqJAe4wZ2".to_string());
    let first = document.add_font(tiny_font()).unwrap();
    let second = document.add_font(tiny_font()).unwrap();
    let (page, layer) = document.add_page_with_layer(210.0f32.to_bits(), 297.0f32.to_bits());
    document.write_text_to_layer_in_page(page, layer, [0, 0, 0], "AB".to_string(), first, 12, [10, 20]).unwrap();
    document.write_text_to_layer_in_page(page, layer, [0, 0, 0], "CA".to_string(), second, 14, [10, 40]).unwrap();
    document.write_all("DLjCAhuTD3cvaoQCJnMvkC0iNWEGEfyD".to_string()).unwrap();
    document
}

#[test]
fn writing_the_same_document_twice_gives_the_same_objects() {
    let first = written_document();
    let second = written_document();
    assert_eq!(format!("{:?}", first.inner_document), format!("{:?}", second.inner_document));
    assert_eq!(first.inner_document.objects.len(), second.inner_document.objects.len());
}

#[test]
fn documents_are_built_from_their_operations() {
    let document = Document {
        document_id: "id".to_string(),
        instance_id: "instance".to_string(),
        operations: vec![
            Operation::AppendNewPage { page_width: 1, page_height: 2 },
            Operation::WriteUnicodeText { color: [0, 0, 0], position: [0, 0], text_string: "AB".to_string(), font_size: 3, font_index: 0 },
            Operation::AppendNewPage { page_width: 4, page_height: 5 },
            Operation::WriteUnicodeText { color: [0, 0, 0], position: [0, 0], text_string: "C".to_string(), font_size: 3, font_index: 1 },
        ],
    };
    let pdf = document.to_pdf_document(vec![tiny_font(), tiny_font()]).unwrap();
    assert_eq!(pdf.identifier, "id");
    let pages = pdf.pages();
    assert_eq!(pages.len(), 2);
    assert_eq!(pages[1].height, Real::Millimeters(5));
    assert_eq!(glyph_string(&pages[0].layers[0].operations()[4]), vec![0, 1, 0, 2]);
    assert_eq!(glyph_string(&pages[1].layers[0].operations()[4]), vec![0, 3]);
    match &pages[1].layers[0].operations()[1].operands[0] {
        Operand::Name(name) => assert_eq!(name, b"F1"),
        _ => panic!("the font is a name"),
    }
}

#[test]
fn documents_are_checked_before_they_are_built() {
    let write = |font_index: usize| Operation::WriteUnicodeText {
        color: [0, 0, 0],
        position: [0, 0],
        text_string: "A".to_string(),
        font_size: 1,
        font_index,
    };
    let no_page = Document { document_id: "id".to_string(), instance_id: "i".to_string(), operations: vec![write(0)] };
    let error = no_page.to_pdf_document(vec![tiny_font()]).err().unwrap();
    assert_eq!(error.context, "Failed to find the page with index 0");
    let no_font = Document {
        document_id: "id".to_string(),
        instance_id: "i".to_string(),
        operations: vec![Operation::AppendNewPage { page_width: 1, page_height: 1 }, write(2)],
    };
    let error = no_font.to_pdf_document(vec![tiny_font()]).err().unwrap();
    assert_eq!(error.context, "Failed to find font 2 into the fonts map");
    let error = no_font.to_pdf_document(vec![vec![9, 9]]).err().unwrap();
    assert_eq!(error.context, "Failed to parse font");
    assert_eq!(error.source_error, Some("Failed to parse font: unknown magic".to_string()));
    // the first failing operation decides the error
    let both = Document {
        document_id: "id".to_string(),
        instance_id: "i".to_string(),
        operations: vec![write(0), Operation::AppendNewPage { page_width: 1, page_height: 1 }, write(5)],
    };
    let error = both.to_pdf_document(vec![tiny_font()]).err().unwrap();
    assert_eq!(error.context, "Failed to find the page with index 0");
    assert!(error.source_error.is_none());
    let fine = Document {
        document_id: "id".to_string(),
        instance_id: "i".to_string(),
        operations: vec![Operation::AppendNewPage { page_width: 1, page_height: 1 }, write(0)],
    };
    assert!(fine.to_pdf_document(vec![tiny_font()]).is_ok());
}

#[test]
fn font_path_is_that_of_the_first_association_of_the_family() {
    let configuration = DocumentConfiguration {
        page_width: 100,
        page_height: 200,
        font_size: 12,
        global_magnification: 1.0f32.to_bits(),
        font_associations: vec![
            FontAssociation { font_family: "serif".to_string(), font_file_path: "a.ttf".to_string() },
            FontAssociation { font_family: "sans".to_string(), font_file_path: "b.ttf".to_string() },
            FontAssociation { font_family: "serif".to_string(), font_file_path: "c.ttf".to_string() },
        ],
    };
    assert_eq!(configuration.get_font_path("serif"), Some("a.ttf".to_string()));
    assert_eq!(configuration.get_font_path("sans"), Some("b.ttf".to_string()));
    assert_eq!(configuration.get_font_path("mono"), None);
}

#[test]
fn built_in_fonts_are_the_sorted_ttf_files_then_the_math_font() {
    let names: Vec<Vec<u8>> = vec![
        b"cmunrm.ttf".to_vec(),
        b"README".to_vec(),
        b"cmunbx.ttf".to_vec(),
        b".ttf".to_vec(),
        b"cmunb.otf".to_vec(),
        b"Zeta.ttf".to_vec(),
        b"cmunbx.TTF".to_vec(),
    ];
    let paths: Vec<String> = font_paths(names).into_iter().map(|path| String::from_utf8(path).unwrap()).collect();
    assert_eq!(
        paths,
        vec![
            "fonts/computer-modern/Zeta.ttf".to_string(),
            "fonts/computer-modern/cmunbx.ttf".to_string(),
            "fonts/computer-modern/cmunrm.ttf".to_string(),
            "fonts/lm-math/opentype/latinmodern-math.otf".to_string(),
        ]
    );
    assert_eq!(font_paths(Vec::new()), vec![b"fonts/lm-math/opentype/latinmodern-math.otf".to_vec()]);
}

#[test]
fn every_page_keeps_one_layer_named_layer0() {
    let mut document = PdfDocument::new("id".to_string());
    let font = document.add_font(tiny_font()).unwrap();
    let (first, layer) = document.add_page_with_layer(1, 1);
    let (second, _) = document.add_page_with_layer(2, 2);
    document.write_text_to_layer_in_page(first, layer, [0, 0, 0], "A".to_string(), font, 1, [0, 0]).unwrap();
    assert!(document.write_text_to_layer_in_page(second, 1, [0, 0, 0], "A".to_string(), font, 1, [0, 0]).is_err());
    assert!(document.add_font(vec![1, 2, 3]).is_err());
    for page in document.pages() {
        assert_eq!(page.layers.len(), 1);
        assert_eq!(page.layers[0].name(), "Layer0");
    }
}

#[test]
fn a_document_can_be_written_again() {
    let mut document = PdfDocument::new("QU2KK7yivMeRDnU8DodEQxnfqJAe4wZ2".to_string());
    let font = document.add_font(tiny_font()).unwrap();
    let (page, layer) = document.add_page_with_layer(300.0f32.to_bits(), 500.0f32.to_bits());
    document.write_text_to_layer_in_page(page, layer, [0, 0, 0], "ABC".to_string(), font, 48, [50, 200]).unwrap();
    document.write_all("first".to_string()).unwrap();
    assert_eq!(document.inner_document.objects.len(), 14);
    document.write_all("second".to_string()).unwrap();
    // thirteen more numbers are given out, each for a new object; the font dictionary
    // replaces the one stored under the number of the font
    assert_eq!(document.inner_document.max_id, 27);
    assert_eq!(document.inner_document.objects.len(), 27);
    assert_eq!(document.inner_document.objects.iter().filter(|object| object.0 == (1, 0)).count(), 1);
    let layer = &document.pages()[0].layers[0];
    assert_eq!(operators(layer), vec!["BDC", "q", "BDC", "q", "BT", "Tf", "Td", "rg", "Tj", "ET", "Q", "EMC", "Q", "EMC"]);
    // the trailer names the second instance
    let id = document.inner_document.trailer.entries.iter().find(|entry| entry.0 == b"ID".to_vec()).unwrap();
    match &id.1 {
        PdfObject::Array(items) => {
            assert!(matches!(&items[1], PdfObject::String(text, StringFormat::Literal) if text == b"second"));
        },
        _ => panic!("the identifiers are an array"),
    }
}
