use std::path::PathBuf;

use ab_glyph::Font;
use label_server::fonts::{
    compare_strs, embedded_candidate, file_candidate, file_stem_id, font_source_order,
    unknown_font, FontCandidate, FontCatalog, FontSource, Order, EMBEDDED_FONT_ID,
};

/// The smallest TrueType data `ab_glyph` accepts: `head`, `hhea` and `maxp`
/// with one glyph.
fn tiny_font() -> Vec<u8> {
    tiny_font_with_units(1000)
}

/// `tiny_font` with the given units per em.
fn tiny_font_with_units(units_per_em: u16) -> Vec<u8> {
    let mut data = vec![0x00, 0x01, 0x00, 0x00, 0x00, 0x03, 0, 0, 0, 0, 0, 0];
    for (tag, offset, length) in [(b"head", 60u32, 54u32), (b"hhea", 114, 36), (b"maxp", 150, 6)] {
        data.extend_from_slice(tag);
        data.extend_from_slice(&[0, 0, 0, 0]);
        data.extend_from_slice(&offset.to_be_bytes());
        data.extend_from_slice(&length.to_be_bytes());
    }
    let mut head = vec![0u8; 54];
    head[18..20].copy_from_slice(&units_per_em.to_be_bytes());
    data.extend_from_slice(&head);
    data.extend_from_slice(&[0u8; 36]);
    data.extend_from_slice(&[0x00, 0x00, 0x50, 0x00, 0x00, 0x01]);
    data
}

fn candidate(name: &str, id: &str, data: Option<Vec<u8>>) -> FontCandidate {
    FontCandidate {
        name: name.to_owned(),
        id: id.to_owned(),
        data,
    }
}

fn embedded() -> FontCandidate {
    candidate(
        "embedded BIZUDPGothic-Regular",
        "BIZUDPGothic-Regular",
        Some(tiny_font()),
    )
}

#[test]
fn the_embedded_font_is_the_default_unless_a_file_comes_first() {
    let file = candidate("/tmp/fonts/MyLabelFont.ttf", "MyLabelFont", Some(tiny_font()));
    let missing = candidate("/tmp/fonts/missing.ttf", "missing", None);

    let catalog = FontCatalog::load(vec![
        embedded(),
        candidate("/tmp/fonts/MyLabelFont.ttf", "MyLabelFont", Some(tiny_font())),
    ])
    .unwrap();
    assert_eq!(catalog.default_id(), "BIZUDPGothic-Regular");
    assert_eq!(catalog.ids(), ["BIZUDPGothic-Regular", "MyLabelFont"]);

    let catalog = FontCatalog::load(vec![missing, file, embedded()]).unwrap();
    assert_eq!(catalog.default_id(), "MyLabelFont");
    assert!(catalog.resolve(Some("BIZUDPGothic-Regular")).is_ok());
}

#[test]
fn unknown_fonts_are_named_and_the_default_always_resolves() {
    let catalog = FontCatalog::load(vec![embedded()]).unwrap();
    assert_eq!(catalog.ids(), ["BIZUDPGothic-Regular"]);
    assert!(catalog.resolve(None).is_ok());
    assert_eq!(catalog.resolve(Some("Comic")).err(), Some("Comic"));
    assert_eq!(unknown_font("Comic"), "unknown font: Comic");
}

#[test]
fn repeated_ids_and_unparsable_data_are_skipped() {
    let catalog = FontCatalog::load(vec![
        candidate("broken", "Zeta", Some(vec![1, 2, 3])),
        candidate("a", "Beta", Some(tiny_font())),
        candidate("b", "Alpha", Some(tiny_font())),
        candidate("c", "Beta", Some(tiny_font())),
    ])
    .unwrap();
    assert_eq!(catalog.ids(), ["Alpha", "Beta"]);
    assert_eq!(catalog.default_id(), "Beta");
}

#[test]
fn no_loadable_font_lists_every_source_tried() {
    let message = FontCatalog::load(vec![
        candidate("/nope/a.ttf", "a", None),
        candidate("embedded x", "x", Some(vec![0; 8])),
    ])
    .err()
    .unwrap();
    assert_eq!(
        message,
        "no label font could be loaded (tried /nope/a.ttf, embedded x)"
    );
    assert_eq!(
        FontCatalog::load(Vec::new()).err().unwrap(),
        "no label font could be loaded (tried )"
    );
}

#[test]
fn strings_compare_as_str_does() {
    assert!(matches!(compare_strs("Alpha", "Beta"), Order::Less));
    assert!(matches!(compare_strs("Beta", "Beta"), Order::Equal));
    assert!(matches!(compare_strs("Beta", "Bet"), Order::Greater));
    assert!(matches!(compare_strs("Z", "a"), Order::Less));
    assert!(matches!(compare_strs("ラベル", "ラ"), Order::Greater));
}

#[test]
fn a_repeated_id_keeps_the_font_of_its_first_source() {
    let catalog = FontCatalog::load(vec![
        candidate("first", "Beta", Some(tiny_font_with_units(1000))),
        candidate("second", "Beta", Some(tiny_font_with_units(2048))),
        candidate("other", "Alpha", Some(tiny_font_with_units(2048))),
    ])
    .unwrap();
    assert_eq!(catalog.ids(), ["Alpha", "Beta"]);
    let beta = catalog.resolve(Some("Beta")).unwrap();
    assert_eq!(beta.units_per_em(), Some(1000.0));
    let alpha = catalog.resolve(Some("Alpha")).unwrap();
    assert_eq!(alpha.units_per_em(), Some(2048.0));
    assert_eq!(catalog.resolve(None).unwrap().units_per_em(), Some(1000.0));
}

#[test]
fn the_label_font_comes_first_then_the_embedded_then_the_system_fonts() {
    static BYTES: [u8; 3] = [1, 2, 3];
    let sources = font_source_order(
        Some(PathBuf::from("/tmp/mine.ttf")),
        &BYTES,
        vec![PathBuf::from("/a.ttc"), PathBuf::from("/b.ttc")],
    );
    assert_eq!(sources.len(), 4);
    assert!(matches!(&sources[0], FontSource::Path(p) if p == &PathBuf::from("/tmp/mine.ttf")));
    assert!(matches!(&sources[1], FontSource::Embedded { id, bytes }
        if *id == EMBEDDED_FONT_ID && *bytes == &BYTES[..]));
    assert!(matches!(&sources[2], FontSource::Path(p) if p == &PathBuf::from("/a.ttc")));
    assert!(matches!(&sources[3], FontSource::Path(p) if p == &PathBuf::from("/b.ttc")));

    let sources = font_source_order(None, &BYTES, Vec::new());
    assert_eq!(sources.len(), 1);
    assert!(matches!(&sources[0], FontSource::Embedded { id, .. } if *id == EMBEDDED_FONT_ID));
}

#[test]
fn font_ids_are_file_stems() {
    assert_eq!(file_stem_id("NotoSansCJK-Regular.ttc"), "NotoSansCJK-Regular");
    assert_eq!(file_stem_id("archive.tar.gz"), "archive.tar");
    assert_eq!(file_stem_id("plain"), "plain");
    assert_eq!(file_stem_id(".hidden"), ".hidden");
    assert_eq!(file_stem_id("trailing."), "trailing");
    assert_eq!(file_stem_id(""), "");
    assert_eq!(file_stem_id("ヒラギノ角ゴシック W3.ttc"), "ヒラギノ角ゴシック W3");
}

#[test]
fn candidates_are_named_as_in_the_error_message() {
    let file = file_candidate("/fonts/My.ttf".to_owned(), Some("My.ttf"), None);
    assert_eq!(file.name, "/fonts/My.ttf");
    assert_eq!(file.id, "My");
    assert_eq!(file.data, None);
    let rootless = file_candidate("/".to_owned(), None, Some(vec![7]));
    assert_eq!(rootless.id, "");
    assert_eq!(rootless.data, Some(vec![7]));
    let embedded = embedded_candidate("BIZUDPGothic-Regular", &[4, 5]);
    assert_eq!(embedded.name, "embedded BIZUDPGothic-Regular");
    assert_eq!(embedded.id, "BIZUDPGothic-Regular");
    assert_eq!(embedded.data, Some(vec![4, 5]));
}
