use label_server::ptouch::{
    classify_device, no_printer_error, DeviceStep, UsbError, PRODUCT_ID, PRODUCT_ID_EDITOR_LITE, VENDOR_ID,
    init_command, parse_status, poll_status, print_commands, raster_packet, tape_width_px,
    Error, Poll, Status, EJECT, PACKBITS_ENABLE, PRECUT, RASTER_MODE, STATUS_REQUEST,
};
use label_server::render::Bitmap;

fn status_frame(mm: u8) -> [u8; 32] {
    let mut frame = [0u8; 32];
    frame[0] = 0x80;
    frame[1] = 0x20;
    frame[10] = mm;
    frame
}

/// What `print` writes for a job on a printer that answers at once: init,
/// the status request, then the commands for the rendered bitmap.
fn print_writes(
    mm: u8,
    precut: bool,
    render: impl FnOnce(&Status) -> Result<Bitmap, String>,
) -> (Result<Status, Error>, Vec<Vec<u8>>) {
    let mut writes = vec![init_command(), STATUS_REQUEST.to_vec()];
    let status = match poll_status(0, Ok(status_frame(mm).to_vec())) {
        Poll::Answer(Ok(status)) => status,
        Poll::Answer(Err(err)) => return (Err(err), writes),
        Poll::Wait => unreachable!(),
    };
    match print_commands(&status, render(&status), precut) {
        Ok(commands) => {
            writes.extend(commands);
            (Ok(status), writes)
        }
        Err(err) => (Err(err), writes),
    }
}

#[test]
fn status_reports_the_printable_width_of_the_loaded_tape() {
    assert_eq!(parse_status(&status_frame(12)).unwrap().tape_px, 76);
    assert_eq!(parse_status(&status_frame(24)).unwrap().tape_px, 128);
    assert_eq!(tape_width_px(9), Some(52));
    assert_eq!(tape_width_px(99), None);
}

#[test]
fn status_with_a_wrong_header_is_rejected() {
    let mut frame = status_frame(12);
    frame[0] = 0x00;
    assert!(matches!(parse_status(&frame), Err(Error::BadStatus(_))));
    assert!(matches!(
        parse_status(&[0x80, 0x20]),
        Err(Error::BadStatus(_))
    ));
}

#[test]
fn tapes_wider_than_the_print_head_are_rejected() {
    // 36mm tape would be 192px on wider printers; a PT-P700 cannot load it
    assert!(matches!(
        parse_status(&status_frame(36)),
        Err(Error::BadStatus(_))
    ));
}

#[test]
fn bad_status_frames_say_what_is_wrong() {
    let mut frame = status_frame(12);
    frame[0] = 0x0a;
    frame[1] = 0xff;
    let message = |r: Result<Status, Error>| match r {
        Err(Error::BadStatus(detail)) => detail,
        other => panic!("{other:?}"),
    };
    assert_eq!(message(parse_status(&frame)), "header 0a ff");
    assert_eq!(message(parse_status(&[0x80, 0x20])), "got 2 bytes instead of 32");
    assert_eq!(
        message(parse_status(&status_frame(36))),
        "unsupported tape width 36mm"
    );
    assert_eq!(
        parse_status(&status_frame(18)).unwrap(),
        Status { media_width_mm: 18, tape_px: 120 }
    );
}

#[test]
fn every_pt_p700_tape_fits_the_head() {
    for (mm, px) in [(4, 24), (6, 32), (9, 52), (12, 76), (18, 120), (21, 124), (24, 128)] {
        assert_eq!(tape_width_px(mm), Some(px));
    }
    assert_eq!(tape_width_px(0), None);
    assert_eq!(tape_width_px(36), None);
}

#[test]
fn status_polls_wait_for_an_answer_then_give_up() {
    assert!(matches!(poll_status(0, Ok(Vec::new())), Poll::Wait));
    assert!(matches!(poll_status(48, Ok(Vec::new())), Poll::Wait));
    match poll_status(49, Ok(Vec::new())) {
        Poll::Answer(Err(Error::BadStatus(detail))) => {
            assert_eq!(detail, "no response after 50 polls");
        }
        _ => panic!("expected a timeout"),
    }
    assert!(matches!(
        poll_status(3, Ok(status_frame(6).to_vec())),
        Poll::Answer(Ok(Status { media_width_mm: 6, tape_px: 32 }))
    ));
    assert!(matches!(
        poll_status(3, Err(Error::NotFound)),
        Poll::Answer(Err(Error::NotFound))
    ));
}

#[test]
fn printing_sends_the_ptouch_print_command_sequence() {
    // 2 columns x 4 rows: column 0 inks the bottom row, column 1 the top.
    let mut bitmap = Bitmap::new(2, 4);
    bitmap.set(0, 3);
    bitmap.set(1, 0);

    let mut seen_status = None;
    let (status, writes) = print_writes(12, true, |status| {
        seen_status = Some(*status);
        Ok(bitmap.clone())
    });
    let status = status.unwrap();
    assert_eq!(status.media_width_mm, 12);
    assert_eq!(seen_status.unwrap().tape_px, 76);

    let mut init = vec![0u8; 100];
    init.extend_from_slice(&[0x1b, 0x40]);
    assert_eq!(writes[0], init);
    assert_eq!(writes[1], [0x1b, 0x69, 0x53]);
    assert_eq!(writes[2], [0x4d, 0x02]);
    assert_eq!(writes[3], [0x1b, 0x69, 0x61, 0x01]);
    assert_eq!(writes[4], [0x1b, 0x69, 0x4d, 0x40]);
    // Golden raster packets of the P-touch raster protocol: 'G', 17, 0, 15
    // then 16 bytes. A 4px image sits at bits 62..=65 of the 128px head;
    // rows go out bottom-up, so the bottom row is bit 62 (byte 7, 0x02)
    // and the top row is bit 65 (byte 8, 0x40).
    assert_eq!(
        writes[5],
        [
            0x47, 0x11, 0x00, 0x0f, //
            0x00, 0x00, 0x00, 0x00, 0x00, 0x00, 0x00, 0x02, //
            0x00, 0x00, 0x00, 0x00, 0x00, 0x00, 0x00, 0x00,
        ]
    );
    assert_eq!(
        writes[6],
        [
            0x47, 0x11, 0x00, 0x0f, //
            0x00, 0x00, 0x00, 0x00, 0x00, 0x00, 0x00, 0x00, //
            0x40, 0x00, 0x00, 0x00, 0x00, 0x00, 0x00, 0x00,
        ]
    );
    assert_eq!(writes[7], [0x1a]);
    assert_eq!(writes.len(), 8);
    assert!(writes.iter().all(|packet| packet.len() <= 128));
}

#[test]
fn printing_refuses_a_bitmap_taller_than_the_tape() {
    let (status, writes) = print_writes(12, true, |_| Ok(Bitmap::new(1, 77)));
    assert!(matches!(
        status.unwrap_err(),
        Error::TooTall {
            height: 77,
            tape_px: 76
        }
    ));
    // nothing beyond init and the status request went to the printer
    assert_eq!(writes.len(), 2);
}

#[test]
fn a_render_failure_stops_before_any_raster_data() {
    let (status, writes) = print_writes(12, true, |_| Err("no glyphs".to_owned()));
    assert!(matches!(status.unwrap_err(), Error::Render(ref m) if m == "no glyphs"));
    assert_eq!(writes.len(), 2);
}

#[test]
fn printing_without_precut_skips_the_precut_command() {
    let (status, writes) = print_writes(24, false, |_| Ok(Bitmap::new(1, 1)));
    status.unwrap();
    assert!(!writes.contains(&PRECUT.to_vec()));
    assert_eq!(writes.len(), 2 + 2 + 1 + 1);
}

#[test]
fn the_command_constants_are_the_protocol_bytes() {
    assert_eq!(init_command().len(), 102);
    assert!(init_command()[..100].iter().all(|&b| b == 0));
    let commands = print_commands(
        &Status { media_width_mm: 24, tape_px: 128 },
        Ok(Bitmap::new(3, 128)),
        true,
    )
    .unwrap();
    assert_eq!(commands[0], PACKBITS_ENABLE);
    assert_eq!(commands[1], RASTER_MODE);
    assert_eq!(commands[2], PRECUT);
    assert_eq!(commands[6], EJECT);
    assert_eq!(commands.len(), 7);
    // a blank column is an empty line
    assert_eq!(commands[3], [&[0x47u8, 0x11, 0x00, 0x0f][..], &[0u8; 16][..]].concat());
}

#[test]
fn raster_packets_put_the_bottom_row_at_the_offset() {
    // one column, full 128px tall, inked on the bottom and top rows
    let mut bitmap = Bitmap::new(1, 128);
    bitmap.set(0, 127);
    bitmap.set(0, 0);
    let packet = raster_packet(&bitmap, 0, 0);
    let mut expected = vec![0x47, 0x11, 0x00, 0x0f, 0x80];
    expected.extend_from_slice(&[0u8; 14]);
    expected.push(0x01);
    assert_eq!(packet, expected);

    // an odd offset moves every bit
    let mut bitmap = Bitmap::new(1, 2);
    bitmap.set(0, 1);
    assert_eq!(raster_packet(&bitmap, 0, 9)[4..6], [0x00, 0x40]);
}

#[test]
fn errors_read_as_messages() {
    assert_eq!(Error::NotFound.to_string(), "no PT-P700 found on USB");
    assert_eq!(
        Error::EditorLite.to_string(),
        "PT-P700 is in Editor Lite mode; hold the Editor Lite button until its lamp goes out"
    );
    assert_eq!(
        Error::BadStatus("header 00 20".to_owned()).to_string(),
        "unexpected printer status: header 00 20"
    );
    assert_eq!(Error::Render("no glyphs".to_owned()).to_string(), "no glyphs");
    assert_eq!(
        Error::TooTall { height: 77, tape_px: 76 }.to_string(),
        "label is 77px tall but the tape prints at most 76px"
    );
    assert_eq!(
        Error::Usb(UsbError::Io).to_string(),
        "USB error: Input/Output Error"
    );
    assert_eq!(
        Error::Usb(UsbError::Access).to_string(),
        "USB error: Access denied (insufficient permissions)"
    );
    assert_eq!(UsbError::Timeout.description(), "Operation timed out");
    assert_eq!(
        UsbError::NotSupported.description(),
        "Operation not supported or unimplemented on this platform"
    );
}

#[test]
fn a_preview_of_the_loaded_tape_uses_the_printed_width() {
    for mm in [4u8, 6, 9, 12, 18, 21, 24] {
        let status = parse_status(&status_frame(mm)).unwrap();
        assert_eq!(
            label_server::preview_tape_px(Some(i64::from(mm))),
            Ok(status.tape_px)
        );
    }
}

#[test]
fn devices_are_sorted_by_vendor_and_product() {
    assert_eq!(classify_device(0x04f9, 0x2061), DeviceStep::Open);
    assert_eq!(classify_device(VENDOR_ID, PRODUCT_ID_EDITOR_LITE), DeviceStep::EditorLite);
    assert_eq!(classify_device(VENDOR_ID, 0x2062), DeviceStep::Skip);
    assert_eq!(classify_device(0x1234, PRODUCT_ID), DeviceStep::Skip);
}

#[test]
fn a_missing_printer_names_editor_lite_mode_when_seen() {
    assert!(matches!(no_printer_error(true), Error::EditorLite));
    assert!(matches!(no_printer_error(false), Error::NotFound));
    assert_eq!(
        no_printer_error(true).to_string(),
        "PT-P700 is in Editor Lite mode; hold the Editor Lite button until its lamp goes out"
    );
    assert_eq!(no_printer_error(false).to_string(), "no PT-P700 found on USB");
}
