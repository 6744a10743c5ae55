use label_server::render::Align;
use label_server::{
    job_from, parse_align, label_lines, parse_port, percent, preview_tape_px, print_height, PrintJob,
    PrintRequest,
};

fn request(text: &str) -> PrintRequest {
    PrintRequest {
        text: text.to_owned(),
        offset_percent: None,
        font: None,
        font_scale_percent: None,
        align: None,
        margin_mm: None,
        tape_mm: None,
    }
}

#[test]
fn label_lines_keeps_inner_blank_lines_and_trims_the_edges() {
    assert_eq!(
        label_lines("abc\n\n12mm テスト  \n").unwrap(),
        ["abc", "", "12mm テスト"]
    );
}

#[test]
fn label_lines_rejects_blank_text() {
    assert_eq!(label_lines(""), None);
    assert_eq!(label_lines(" \n\t\n"), None);
}

#[test]
fn label_lines_drops_blank_edge_lines_and_carriage_returns() {
    assert_eq!(
        label_lines("\n  \r\nfirst\r\n\u{3000}\nlast\t\n\n").unwrap(),
        ["first", "", "last"]
    );
    assert_eq!(label_lines("only").unwrap(), ["only"]);
    assert_eq!(label_lines("  lead").unwrap(), ["  lead"]);
    assert_eq!(label_lines("\u{2003}\u{85}\n\r"), None);
}

#[test]
fn print_height_leaves_the_offset_blank_on_both_edges() {
    // 12mm tape: 5% of 76px rounds to 4px per edge
    assert_eq!(print_height(76, 5), 68);
    assert_eq!(print_height(76, 0), 76);
    assert_eq!(print_height(128, 10), 102);
    assert_eq!(print_height(76, 49), 2);
}

#[test]
fn print_height_is_zero_when_the_edges_cover_the_tape() {
    assert_eq!(print_height(1, 49), 1);
    assert_eq!(print_height(2, 255), 0);
    assert_eq!(print_height(0, 5), 0);
}

#[test]
fn percent_defaults_accepts_and_names_the_range() {
    assert_eq!(percent(None, 5, 0, 49, "offset_percent"), Ok(5));
    assert_eq!(percent(Some(20), 5, 0, 49, "offset_percent"), Ok(20));
    assert_eq!(percent(Some(0), 5, 0, 49, "offset_percent"), Ok(0));
    assert_eq!(percent(Some(49), 5, 0, 49, "offset_percent"), Ok(49));
    assert_eq!(
        percent(Some(50), 5, 0, 49, "offset_percent"),
        Err("offset_percent must be 0..=49, got 50".to_owned())
    );
    assert_eq!(
        percent(Some(-1), 5, 0, 49, "offset_percent"),
        Err("offset_percent must be 0..=49, got -1".to_owned())
    );
    assert_eq!(
        percent(Some(256), 5, 0, 49, "offset_percent"),
        Err("offset_percent must be 0..=49, got 256".to_owned())
    );
    assert_eq!(
        percent(Some(i64::MIN), 100, 10, 100, "font_scale_percent"),
        Err("font_scale_percent must be 10..=100, got -9223372036854775808".to_owned())
    );
}

#[test]
fn a_request_becomes_a_job_with_the_defaults() {
    assert_eq!(
        job_from(&request("abc\ndef")),
        Ok(PrintJob {
            lines: vec!["abc".to_owned(), "def".to_owned()],
            offset_percent: 5,
            font: None,
            font_scale_percent: 100,
            align: Align::Left,
            margin_mm: 2,
        })
    );
}

#[test]
fn explicit_options_reach_the_job_and_out_of_range_is_rejected() {
    let mut req = request("abc");
    req.offset_percent = Some(20);
    req.font = Some("BIZUDPGothic-Regular".to_owned());
    req.font_scale_percent = Some(60);
    let job = job_from(&req).unwrap();
    assert_eq!(job.offset_percent, 20);
    assert_eq!(job.font.as_deref(), Some("BIZUDPGothic-Regular"));
    assert_eq!(job.font_scale_percent, 60);

    for out_of_range in [50, -1, 256] {
        let mut req = request("abc");
        req.offset_percent = Some(out_of_range);
        let message = job_from(&req).unwrap_err();
        assert!(message.contains("offset_percent must be 0..=49"), "{message}");
    }
    let mut req = request("abc");
    req.font_scale_percent = Some(5);
    assert_eq!(
        job_from(&req),
        Err("font_scale_percent must be 10..=100, got 5".to_owned())
    );
}

#[test]
fn blank_text_is_rejected_before_the_options() {
    let mut req = request(" \n");
    req.offset_percent = Some(99);
    assert_eq!(job_from(&req), Err("text is empty".to_owned()));
}

#[test]
fn preview_tapes_must_be_pt_p700_tapes() {
    assert_eq!(preview_tape_px(None), Ok(76));
    assert_eq!(preview_tape_px(Some(24)), Ok(128));
    assert_eq!(preview_tape_px(Some(4)), Ok(24));
    assert_eq!(
        preview_tape_px(Some(36)),
        Err("tape_mm 36 is not a PT-P700 tape".to_owned())
    );
    assert_eq!(
        preview_tape_px(Some(0)),
        Err("tape_mm must be 1..=99, got 0".to_owned())
    );
    assert_eq!(
        preview_tape_px(Some(100)),
        Err("tape_mm must be 1..=99, got 100".to_owned())
    );
}

#[test]
fn port_defaults_only_when_unset() {
    assert_eq!(parse_port(None).unwrap(), 3000);
    for (raw, expected) in [("1", 1), ("43127", 43127), ("65535", 65535)] {
        assert_eq!(parse_port(Some(raw)).unwrap(), expected);
    }
}

#[test]
fn invalid_port_is_an_explicit_error() {
    for raw in [
        "",
        "0",
        "65536",
        "-1",
        "+3000",
        "3000 ",
        " 3000",
        "abc",
        "127.0.0.1:3000",
    ] {
        let error = parse_port(Some(raw)).unwrap_err();
        assert!(error.to_string().contains("PORT"), "{raw:?}: {error}");
    }
}

#[test]
fn ports_may_have_leading_zeros_but_not_overflow() {
    assert_eq!(parse_port(Some("0003000")), Ok(3000));
    assert_eq!(parse_port(Some("000")).unwrap_err(), "PORT must be an integer from 1 to 65535");
    assert!(parse_port(Some("99999999999999999999")).is_err());
    assert!(parse_port(Some("３０００")).is_err());
}

#[test]
fn the_print_summary_names_the_size_and_tape() {
    assert_eq!(
        label_server::print_summary(348, 68, 12),
        "printed 348x68px on 12mm tape"
    );
}

#[test]
fn label_lines_joined_by_newlines_split_back_into_themselves() {
    for text in ["abc\n\n12mm テスト  \n", "\n\n  x \n\ty\n\n", "one"] {
        let lines = label_lines(text).unwrap();
        assert_eq!(label_lines(&lines.join("\n")), Some(lines));
    }
}

#[test]
fn align_and_margin_reach_the_job_and_out_of_range_is_rejected() {
    let mut req = request("abc");
    req.align = Some("center".to_owned());
    req.margin_mm = Some(127);
    let job = job_from(&req).unwrap();
    assert_eq!(job.align, Align::Center);
    assert_eq!(job.margin_mm, 127);

    for out_of_range in [1, 0, 128, -5] {
        let mut req = request("abc");
        req.margin_mm = Some(out_of_range);
        assert_eq!(
            job_from(&req).unwrap_err(),
            format!("margin_mm must be 2..=127, got {out_of_range}")
        );
    }
    let mut req = request("abc");
    req.align = Some("middle".to_owned());
    assert_eq!(
        job_from(&req).unwrap_err(),
        "align must be left, center or right, got middle"
    );
}

#[test]
fn align_names_are_read_exactly() {
    assert_eq!(parse_align(None), Ok(Align::Left));
    assert_eq!(parse_align(Some("left")), Ok(Align::Left));
    assert_eq!(parse_align(Some("center")), Ok(Align::Center));
    assert_eq!(parse_align(Some("right")), Ok(Align::Right));
    assert!(parse_align(Some("Right")).is_err());
    assert!(parse_align(Some("")).is_err());
}
