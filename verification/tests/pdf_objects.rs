use textr::cmap::{generate_cid_to_unicode_map, gid_blocks, glyph_table, width_runs, CMAP_BEGINNING, CMAP_BEGINNING_AFTER_NAME, CMAP_END};
use textr::font::GlyphMetrics;
use textr::pdf::{font_key_order, prefixed_number, OcgLayersMap, OcgReference, XObjectReference};
use textr::pdf_object::{bytes_less, Dictionary, PdfObject};

fn keys(dictionary: &Dictionary) -> Vec<String> {
    dictionary.entries.iter().map(|entry| String::from_utf8(entry.0.clone()).unwrap()).collect()
}

#[test]
fn references_are_named_by_their_index() {
    assert_eq!(format!("{:?}", XObjectReference::new(3)), "XObjectReference(\"X3\")");
    assert_eq!(OcgReference::new(12).name(), "MC12");
    assert_eq!(prefixed_number("F", 0), "F0");
}

#[test]
fn ocg_layers_are_numbered_in_order_and_become_a_dictionary() {
    let mut map = OcgLayersMap::new();
    assert_eq!(map.len(), 0);
    let first = map.add_ocg(PdfObject::Integer(7));
    let second = map.add_ocg(PdfObject::Reference((4, 0)));
    assert_eq!(first.name(), "MC0");
    assert_eq!(second.name(), "MC1");
    assert_eq!(map.len(), 2);
    let dictionary = map.into_dictionary();
    assert_eq!(keys(&dictionary), vec!["MC0".to_string(), "MC1".to_string()]);
    assert!(matches!(dictionary.entries[0].1, PdfObject::Integer(7)));
    assert!(matches!(dictionary.entries[1].1, PdfObject::Reference((4, 0))));
}

#[test]
fn setting_a_key_replaces_its_entry_and_moves_it_last() {
    let mut dictionary = Dictionary::new();
    assert!(dictionary.is_empty());
    dictionary.set(b"A".to_vec(), PdfObject::Integer(1));
    dictionary.set(b"B".to_vec(), PdfObject::Integer(2));
    dictionary.set(b"A".to_vec(), PdfObject::Integer(3));
    assert_eq!(keys(&dictionary), vec!["B".to_string(), "A".to_string()]);
    assert!(matches!(dictionary.entries[1].1, PdfObject::Integer(3)));
}

#[test]
fn bytes_compare_lexicographically() {
    assert!(bytes_less(&b"F1".to_vec(), &b"F10".to_vec()));
    assert!(bytes_less(&b"F10".to_vec(), &b"F2".to_vec()));
    assert!(!bytes_less(&b"F2".to_vec(), &b"F2".to_vec()));
    assert!(bytes_less(&Vec::new(), &b"A".to_vec()));
    assert!(!bytes_less(&b"B".to_vec(), &b"A".to_vec()));
}

#[test]
fn fonts_are_walked_in_the_order_of_their_keys() {
    assert_eq!(font_key_order(0), Vec::<usize>::new());
    assert_eq!(font_key_order(3), vec![0, 1, 2]);
    assert_eq!(font_key_order(12), vec![0, 1, 10, 11, 2, 3, 4, 5, 6, 7, 8, 9]);
}

#[test]
fn glyph_table_is_sorted_with_the_reserved_row() {
    let glyphs = vec![
        (3u16, 'C', Some(GlyphMetrics { width: 700, height: 900 })),
        (1u16, 'A', Some(GlyphMetrics { width: 500, height: 1200 })),
        (2u16, 'B', None),
    ];
    let (rows, maximum_height, total_width) = glyph_table(&glyphs);
    assert_eq!(rows, vec![(0, 0, 1000, 1000), (1, 'A' as u32, 500, 1200), (3, 'C' as u32, 700, 900)]);
    assert_eq!(maximum_height, 1200);
    assert_eq!(total_width, 1200);
}

#[test]
fn blocks_split_on_the_high_byte_and_at_one_hundred_entries() {
    let mut rows = vec![(0u32, 0u32, 1000u32, 1000u32), (1, 65, 500, 700), (0x101, 66, 500, 700)];
    let blocks = gid_blocks(&rows);
    assert_eq!(blocks, vec![vec![(0, 0), (1, 65)], vec![(0x101, 66)]]);
    rows = (0..150u32).map(|g| (g, g + 32, 500, 700)).collect();
    let blocks = gid_blocks(&rows);
    assert_eq!(blocks.len(), 2);
    assert_eq!(blocks[0].len(), 100);
    assert_eq!(blocks[1].len(), 50);
    assert_eq!(blocks[1][0], (100, 132));
}

#[test]
fn character_map_text() {
    let map = generate_cid_to_unicode_map("F0".to_string(), vec![vec![(0, 0), (0x1a, 0x41)]]);
    let expected = format!(
        "{}F0{}2 beginbfchar\r\n<0000> <0000>\n<001a> <0041>\nendbfchar\r\n{}",
        CMAP_BEGINNING, CMAP_BEGINNING_AFTER_NAME, CMAP_END
    );
    assert_eq!(map, expected);
}

#[test]
fn width_runs_group_consecutive_glyphs() {
    let widths = vec![Some(10u32), Some(20), None, Some(40), Some(50), None];
    let runs = width_runs(&widths);
    assert_eq!(runs, vec![(0u16, vec![10u32, 20]), (3u16, vec![40u32, 50])]);
    let runs = width_runs(&vec![None, Some(5u32)]);
    assert_eq!(runs, vec![(0u16, vec![]), (1u16, vec![5u32])]);
}
