# label_server

Prints Brother PT-P700 labels from a textarea: an HTTP API renders text with
an embedded font and sends it to the printer over USB.

The logic is a Verus library; the program around it is ordinary Rust.

- `src/lib.rs` — label text rules (`label_lines`), request validation
  (`percent`, `parse_align`, `job_from`, `preview_tape_px`, `parse_port`), the printable
  height of a tape, the preview payload, and the `Printer` trait.
- `src/ptouch.rs` — the PT-P700 raster protocol: which USB device to open,
  command bytes, the status frame and its polling, raster packets, and the
  packets of a whole job.
- `src/render.rs` — 1-bit bitmaps, their PNG preview, and the integer rules
  that plan the size search, size and place text lines (alignment), and
  add blank columns for margins beyond the printer's 2mm.
- `src/fonts.rs` — the font sources and their order (`LABEL_FONT`, the
  embedded font, system fonts), ids from file stems, and the font catalog
  (ids in `str` order, first loadable font is the default, a repeated id
  keeps its first font).
- `src/text.rs` — Unicode white space, line splitting, decimal and hex
  numerals.
- `app/` — `main`, the axum server, USB transfers (rusb), glyph rasterising
  with ab_glyph, and reading font files.
- `tests/` — tests of the library.

The server embeds `fonts/BIZUDPGothic-Regular.ttf` and the built client in
`client/dist`; both must be present to build `app/`.
