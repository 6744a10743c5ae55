use base64::Engine;
use label_server::preview_of;
use label_server::render::{
    encode_png, label_frame, label_scale, line_lefts, margin_columns, measure_plan,
    scale_search_step, Align, Bitmap, RenderError, ScaleStep,
};

#[test]
fn a_new_bitmap_is_blank_and_set_inks_one_pixel() {
    let mut bitmap = Bitmap::new(3, 2);
    assert_eq!((bitmap.width, bitmap.height), (3, 2));
    assert!((0..2).all(|y| (0..3).all(|x| !bitmap.get(x, y))));
    bitmap.set(2, 1);
    assert!(bitmap.get(2, 1));
    assert_eq!(bitmap.pixels, [false, false, false, false, false, true]);
}

#[test]
fn png_encodes_ink_as_black_on_white() {
    let mut bitmap = Bitmap::new(2, 1);
    bitmap.set(1, 0);
    let png = encode_png(&bitmap).unwrap();
    let mut reader = png::Decoder::new(std::io::Cursor::new(png))
        .read_info()
        .unwrap();
    let mut buf = vec![0; reader.output_buffer_size().unwrap()];
    let info = reader.next_frame(&mut buf).unwrap();
    assert_eq!((info.width, info.height), (2, 1));
    assert_eq!(&buf[..2], &[0xff, 0x00]);
}

#[test]
fn gray_levels_are_ink_black_blank_white() {
    let mut bitmap = Bitmap::new(2, 2);
    bitmap.set(0, 1);
    assert_eq!(bitmap.gray_levels(), [0xff, 0xff, 0x00, 0xff]);
}

#[test]
fn an_empty_bitmap_cannot_be_a_png() {
    assert!(encode_png(&Bitmap::new(0, 4)).is_err());
    assert!(preview_of(&Bitmap::new(3, 0), 76).is_err());
}

#[test]
fn a_preview_carries_the_png_in_base64_and_the_sizes() {
    let mut bitmap = Bitmap::new(5, 68);
    bitmap.set(4, 67);
    let preview = preview_of(&bitmap, 76).unwrap();
    assert_eq!(preview.width_px, 5);
    assert_eq!(preview.height_px, 68);
    assert_eq!(preview.tape_px, 76);
    let png = base64::engine::general_purpose::STANDARD
        .decode(&preview.png_base64)
        .unwrap();
    assert_eq!(&png[..8], b"\x89PNG\r\n\x1a\n");
    assert_eq!(png, encode_png(&bitmap).unwrap());
    let decoded = png::Decoder::new(std::io::Cursor::new(png)).read_info().unwrap();
    assert_eq!(decoded.info().width, 5);
    assert_eq!(decoded.info().height, 68);
}

#[test]
fn the_size_search_stops_at_the_first_scale_that_is_too_tall() {
    assert!(matches!(scale_search_step(4, 10, 9), ScaleStep::Stop));
    assert!(matches!(scale_search_step(4, 9, 9), ScaleStep::Fits { next: Some(5) }));
    assert!(matches!(scale_search_step(512, 1, 9), ScaleStep::Fits { next: None }));
}

#[test]
fn the_label_scale_is_the_smallest_line_scale_shrunk() {
    assert_eq!(label_scale(&vec![Some(40), Some(30)], 100, 76, 2).unwrap(), 30);
    assert_eq!(label_scale(&vec![Some(40), Some(30)], 50, 76, 2).unwrap(), 15);
    // never below the smallest scale
    assert_eq!(label_scale(&vec![Some(12)], 10, 76, 1).unwrap(), 4);
    // only blank lines: the smallest scale
    assert_eq!(label_scale(&vec![], 100, 76, 3).unwrap(), 4);
    assert!(matches!(
        label_scale(&vec![Some(40), None], 100, 76, 2),
        Err(RenderError::TooSmall { print_height: 76, lines: 2 })
    ));
}

#[test]
fn lines_are_placed_in_equal_slots() {
    let frame = label_frame(&vec![10, 30, 0], &vec![20, 30, 0], 128).unwrap();
    assert_eq!(frame.width, 30);
    assert_eq!(frame.ink_height, 30);
    // slot 42, 38 rows unused, 12 per line, half of it above each line
    assert_eq!(frame.tops, [6, 48, 90]);
    assert_eq!(label_frame(&vec![0], &vec![0], 5).unwrap().width, 1);
    assert!(matches!(
        label_frame(&vec![10, 10], &vec![39, 10], 76),
        Err(RenderError::TooSmall { print_height: 76, lines: 2 })
    ));
}

#[test]
fn render_errors_read_as_messages() {
    assert_eq!(RenderError::NoLines.to_string(), "nothing to render");
    assert_eq!(
        RenderError::TooSmall { print_height: 76, lines: 3 }.to_string(),
        "3 lines do not fit into 76px of tape"
    );
}

#[test]
fn a_bitmap_with_pixels_always_encodes() {
    let mut bitmap = Bitmap::new(2, 1);
    bitmap.set(1, 0);
    let png = encode_png(&bitmap).unwrap();
    let decoded = png::Decoder::new(std::io::Cursor::new(png)).read_info().unwrap();
    assert_eq!(decoded.info().width, 2);
    assert_eq!(decoded.info().height, 1);
}

#[test]
fn the_preview_text_is_standard_base64_of_the_png() {
    let preview = preview_of(&Bitmap::new(1, 1), 24).unwrap();
    // The PNG signature 89 50 4e 47 0d 0a 1a 0a opens every preview.
    assert!(preview.png_base64.starts_with("iVBORw0KGgo"));
    assert_eq!(preview.png_base64.len() % 4, 0);
}

#[test]
fn the_size_search_measures_only_lines_with_text() {
    let plan = measure_plan(&["abc", "", "  \t", "x"], 76).unwrap();
    assert_eq!(plan.slot, 19);
    assert_eq!(plan.measured, vec![0, 3]);
    let plan = measure_plan(&[" "], 5).unwrap();
    assert_eq!(plan.slot, 5);
    assert!(plan.measured.is_empty());
    assert!(matches!(measure_plan(&[], 76), Err(RenderError::NoLines)));
}

#[test]
fn lines_are_placed_by_their_alignment_after_the_margin() {
    let widths = vec![10, 30, 0, 29];
    assert_eq!(line_lefts(&widths, 30, Align::Left, 0), vec![0, 0, 0, 0]);
    assert_eq!(line_lefts(&widths, 30, Align::Center, 0), vec![10, 0, 15, 0]);
    assert_eq!(line_lefts(&widths, 30, Align::Right, 7), vec![27, 7, 37, 8]);
}

#[test]
fn margins_beyond_the_printer_minimum_add_blank_columns() {
    assert_eq!(margin_columns(2), 0);
    assert_eq!(margin_columns(0), 0);
    assert_eq!(margin_columns(3), 7);
    assert_eq!(margin_columns(12), 71);
    assert_eq!(margin_columns(127), 886);
}

#[test]
fn a_bitmap_knows_when_its_sizes_do_not_match_its_pixels() {
    let mut bitmap = Bitmap::new(3, 2);
    assert!(bitmap.is_well_formed());
    bitmap.width = 4;
    assert!(!bitmap.is_well_formed());
    bitmap.width = usize::MAX;
    assert!(!bitmap.is_well_formed());
}
