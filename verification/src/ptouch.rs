//! PT-P700 raster protocol: the command bytes, the status frame, and the
//! packets that carry a label to the print head.

use vstd::prelude::*;
use crate::render::Bitmap;
use crate::text::{decimal, decimal_string, hex2, hex2_string};

verus! {

/// Width of the PT-P700 print head in pixels.
pub const MAX_PX: usize = 128;
/// Bytes of one raster line (one bit per head pixel).
pub const BYTES_PER_LINE: usize = 16;

pub const VENDOR_ID: u16 = 0x04f9;
pub const PRODUCT_ID: u16 = 0x2061;
/// The same printer while its Editor Lite lamp is on (a USB disk, cannot print).
pub const PRODUCT_ID_EDITOR_LITE: u16 = 0x2064;

/// Status polls before giving up (each read waits up to a second).
pub const STATUS_POLLS: usize = 50;

/// `ESC i S` — status information request.
pub const STATUS_REQUEST: [u8; 3] = [0x1b, 0x69, 0x53];
/// `M 02` — enable `PackBits` compression (the raster packets fake it with
/// one uncompressed run).
pub const PACKBITS_ENABLE: [u8; 2] = [0x4d, 0x02];
/// `ESC i a 01` — switch to raster mode (P700 family).
pub const RASTER_MODE: [u8; 4] = [0x1b, 0x69, 0x61, 0x01];
/// `ESC i M 40` — cut the blank leader before printing.
pub const PRECUT: [u8; 4] = [0x1b, 0x69, 0x4d, 0x40];
/// Print with feeding (eject / cut).
pub const EJECT: [u8; 1] = [0x1a];

/// 100 invalidation bytes followed by `ESC @` (initialise).
pub open spec fn init_bytes() -> Seq<u8> {
    Seq::new(100, |i: int| 0u8) + seq![0x1bu8, 0x40u8]
}

/// 100 invalidation bytes followed by `ESC @` (initialise).
pub fn init_command() -> (r: Vec<u8>)
    ensures
        r@ == init_bytes(),
{
    let mut cmd: Vec<u8> = vec![0u8; 100];
    cmd.push(0x1b);
    cmd.push(0x40);
    assert(cmd@ =~= init_bytes());
    cmd
}

/// Why a libusb call failed: the kinds libusb reports, as `rusb` names them.
#[derive(Debug, Clone, Copy, PartialEq, Eq, Structural)]
pub enum UsbError {
    /// Input/output error.
    Io,
    /// Invalid parameter.
    InvalidParam,
    /// Access denied (insufficient permissions).
    Access,
    /// No such device (it may have been disconnected).
    NoDevice,
    /// Entity not found.
    NotFound,
    /// Resource busy.
    Busy,
    /// Operation timed out.
    Timeout,
    /// Overflow.
    Overflow,
    /// Pipe error.
    Pipe,
    /// System call interrupted (perhaps due to signal).
    Interrupted,
    /// Insufficient memory.
    NoMem,
    /// Operation not supported or unimplemented on this platform.
    NotSupported,
    /// The device returned a malformed descriptor.
    BadDescriptor,
    /// Other error.
    Other,
}

/// How libusb's reason reads (the text `rusb` displays for each kind).
pub open spec fn usb_description(err: UsbError) -> Seq<char> {
    match err {
        UsbError::Io => "Input/Output Error"@,
        UsbError::InvalidParam => "Invalid parameter"@,
        UsbError::Access => "Access denied (insufficient permissions)"@,
        UsbError::NoDevice => "No such device (it may have been disconnected)"@,
        UsbError::NotFound => "Entity not found"@,
        UsbError::Busy => "Resource busy"@,
        UsbError::Timeout => "Operation timed out"@,
        UsbError::Overflow => "Overflow"@,
        UsbError::Pipe => "Pipe error"@,
        UsbError::Interrupted => "System call interrupted (perhaps due to signal)"@,
        UsbError::NoMem => "Insufficient memory"@,
        UsbError::NotSupported => "Operation not supported or unimplemented on this platform"@,
        UsbError::BadDescriptor => "Malformed descriptor"@,
        UsbError::Other => "Other error"@,
    }
}

impl UsbError {
    /// The text of the reason (see `usb_description`).
    pub fn description(&self) -> (r: &'static str)
        ensures
            r@ == usb_description(*self),
    {
        match self {
            UsbError::Io => {
                let r = "Input/Output Error";
                proof {
                    reveal_strlit("Input/Output Error");
                }
                r
            },
            UsbError::InvalidParam => {
                let r = "Invalid parameter";
                proof {
                    reveal_strlit("Invalid parameter");
                }
                r
            },
            UsbError::Access => {
                let r = "Access denied (insufficient permissions)";
                proof {
                    reveal_strlit("Access denied (insufficient permissions)");
                }
                r
            },
            UsbError::NoDevice => {
                let r = "No such device (it may have been disconnected)";
                proof {
                    reveal_strlit("No such device (it may have been disconnected)");
                }
                r
            },
            UsbError::NotFound => {
                let r = "Entity not found";
                proof {
                    reveal_strlit("Entity not found");
                }
                r
            },
            UsbError::Busy => {
                let r = "Resource busy";
                proof {
                    reveal_strlit("Resource busy");
                }
                r
            },
            UsbError::Timeout => {
                let r = "Operation timed out";
                proof {
                    reveal_strlit("Operation timed out");
                }
                r
            },
            UsbError::Overflow => {
                let r = "Overflow";
                proof {
                    reveal_strlit("Overflow");
                }
                r
            },
            UsbError::Pipe => {
                let r = "Pipe error";
                proof {
                    reveal_strlit("Pipe error");
                }
                r
            },
            UsbError::Interrupted => {
                let r = "System call interrupted (perhaps due to signal)";
                proof {
                    reveal_strlit("System call interrupted (perhaps due to signal)");
                }
                r
            },
            UsbError::NoMem => {
                let r = "Insufficient memory";
                proof {
                    reveal_strlit("Insufficient memory");
                }
                r
            },
            UsbError::NotSupported => {
                let r = "Operation not supported or unimplemented on this platform";
                proof {
                    reveal_strlit("Operation not supported or unimplemented on this platform");
                }
                r
            },
            UsbError::BadDescriptor => {
                let r = "Malformed descriptor";
                proof {
                    reveal_strlit("Malformed descriptor");
                }
                r
            },
            UsbError::Other => {
                let r = "Other error";
                proof {
                    reveal_strlit("Other error");
                }
                r
            },
        }
    }
}

#[derive(Debug)]
pub enum Error {
    Usb(UsbError),
    NotFound,
    EditorLite,
    BadStatus(String),
    Render(String),
    TooTall { height: usize, tape_px: usize },
}

impl Error {
    /// Whether `text` is how this error reads; for a USB error libusb's
    /// reason follows the fixed prefix.
    pub open spec fn reads(&self, text: Seq<char>) -> bool {
        match self {
            Error::Usb(err) => text == "USB error: "@ + usb_description(*err),
            Error::NotFound => text == "no PT-P700 found on USB"@,
            Error::EditorLite => text
                == "PT-P700 is in Editor Lite mode; hold the Editor Lite button until its lamp goes out"@,
            Error::BadStatus(detail) => text == "unexpected printer status: "@ + detail@,
            Error::Render(detail) => text == detail@,
            Error::TooTall { height, tape_px } => text == "label is "@ + decimal(*height as nat)
                + "px tall but the tape prints at most "@ + decimal(*tape_px as nat) + "px"@,
        }
    }

    /// The human-readable message.
    pub fn to_string(&self) -> (r: String)
        ensures
            self.reads(r@),
    {
        match self {
            Error::Usb(err) => {
                let mut s = String::from_str("USB error: ");
                s.append(err.description());
                s
            },
            Error::NotFound => String::from_str("no PT-P700 found on USB"),
            Error::EditorLite => String::from_str(
                "PT-P700 is in Editor Lite mode; hold the Editor Lite button until its lamp goes out",
            ),
            Error::BadStatus(detail) => {
                let mut s = String::from_str("unexpected printer status: ");
                s.append(detail.as_str());
                s
            },
            Error::Render(detail) => detail.clone(),
            Error::TooTall { height, tape_px } => {
                let mut s = String::from_str("label is ");
                s.append(decimal_string(*height as u64).as_str());
                s.append("px tall but the tape prints at most ");
                s.append(decimal_string(*tape_px as u64).as_str());
                s.append("px");
                s
            },
        }
    }
}

/// What to do with a USB device met while looking for the printer.
#[derive(Debug, Clone, Copy, PartialEq, Eq, Structural)]
pub enum DeviceStep {
    /// A PT-P700 in printer mode: open it.
    Open,
    /// A PT-P700 in Editor Lite (mass storage) mode: remember it.
    EditorLite,
    /// Anything else.
    Skip,
}

/// Sorts a device by its USB vendor and product ids.
pub fn classify_device(vendor_id: u16, product_id: u16) -> (r: DeviceStep)
    ensures
        r == if vendor_id != VENDOR_ID {
            DeviceStep::Skip
        } else if product_id == PRODUCT_ID {
            DeviceStep::Open
        } else if product_id == PRODUCT_ID_EDITOR_LITE {
            DeviceStep::EditorLite
        } else {
            DeviceStep::Skip
        },
{
    if vendor_id != VENDOR_ID {
        DeviceStep::Skip
    } else if product_id == PRODUCT_ID {
        DeviceStep::Open
    } else if product_id == PRODUCT_ID_EDITOR_LITE {
        DeviceStep::EditorLite
    } else {
        DeviceStep::Skip
    }
}

/// The error when no printer-mode PT-P700 was found: a PT-P700 seen in
/// Editor Lite mode is named as such.
pub fn no_printer_error(editor_lite_seen: bool) -> (r: Error)
    ensures
        r == if editor_lite_seen {
            Error::EditorLite
        } else {
            Error::NotFound
        },
{
    if editor_lite_seen {
        Error::EditorLite
    } else {
        Error::NotFound
    }
}

/// The tape the printer reports, and how many head pixels it covers.
#[derive(Debug, Clone, Copy, PartialEq, Eq)]
pub struct Status {
    pub media_width_mm: u8,
    pub tape_px: usize,
}

/// Printable pixels of each tape a PT-P700 accepts, by width in mm.
pub open spec fn tape_px_of(mm: u8) -> Option<usize> {
    if mm == 4 {
        Some(24)
    } else if mm == 6 {
        Some(32)
    } else if mm == 9 {
        Some(52)
    } else if mm == 12 {
        Some(76)
    } else if mm == 18 {
        Some(120)
    } else if mm == 21 {
        Some(124)
    } else if mm == 24 {
        Some(128)
    } else {
        None
    }
}

/// Printable pixels for a tape width in mm (the tapes a PT-P700 accepts).
pub fn tape_width_px(mm: u8) -> (r: Option<usize>)
    ensures
        r == tape_px_of(mm),
        r matches Some(px) ==> px <= MAX_PX,
{
    match mm {
        4 => Some(24),
        6 => Some(32),
        9 => Some(52),
        12 => Some(76),
        18 => Some(120),
        21 => Some(124),
        24 => Some(128),
        _ => None,
    }
}

/// The status a 32-byte frame `80 20 ...` reports (media width at byte 10),
/// or `None` for a wrong length, header, or a tape the head cannot cover.
pub open spec fn status_of(frame: Seq<u8>) -> Option<Status> {
    if frame.len() == 32 && frame[0] == 0x80 && frame[1] == 0x20 && tape_px_of(frame[10]) is Some
        && tape_px_of(frame[10])->0 <= MAX_PX {
        Some(Status { media_width_mm: frame[10], tape_px: tape_px_of(frame[10])->0 })
    } else {
        None
    }
}

/// Why a frame is not a status: its length, its header, or its tape.
pub open spec fn status_error(frame: Seq<u8>) -> Seq<char> {
    if frame.len() != 32 {
        "got "@ + decimal(frame.len()) + " bytes instead of 32"@
    } else if frame[0] != 0x80 || frame[1] != 0x20 {
        "header "@ + hex2(frame[0]) + " "@ + hex2(frame[1])
    } else {
        "unsupported tape width "@ + decimal(frame[10] as nat) + "mm"@
    }
}

/// `result` is what a frame decodes to: its status, or `BadStatus` saying
/// why it is none.
pub open spec fn status_answer(frame: Seq<u8>, result: Result<Status, Error>) -> bool {
    match result {
        Ok(status) => status_of(frame) == Some(status),
        Err(Error::BadStatus(detail)) => status_of(frame) is None && detail@ == status_error(frame),
        Err(_) => false,
    }
}

/// Decodes the 32-byte status frame (`80 20 ...`, media width at byte 10).
pub fn parse_status(frame: &[u8]) -> (r: Result<Status, Error>)
    ensures
        status_answer(frame@, r),
{
    if frame.len() != 32 {
        let mut s = String::from_str("got ");
        s.append(decimal_string(frame.len() as u64).as_str());
        s.append(" bytes instead of 32");
        return Err(Error::BadStatus(s));
    }
    if frame[0] != 0x80 || frame[1] != 0x20 {
        let mut s = String::from_str("header ");
        s.append(hex2_string(frame[0]).as_str());
        s.append(" ");
        s.append(hex2_string(frame[1]).as_str());
        return Err(Error::BadStatus(s));
    }
    let media_width_mm = frame[10];
    match tape_width_px(media_width_mm) {
        Some(tape_px) if tape_px <= MAX_PX => Ok(Status { media_width_mm, tape_px }),
        _ => {
            let mut s = String::from_str("unsupported tape width ");
            s.append(decimal_string(media_width_mm as u64).as_str());
            s.append("mm");
            Err(Error::BadStatus(s))
        },
    }
}

/// What to do after one status read.
pub enum Poll {
    /// The printer has answered (or the transport failed, or it is too late).
    Answer(Result<Status, Error>),
    /// Nothing arrived yet: pause, then read again.
    Wait,
}

/// Decides one status poll: `polls_done` reads came back empty before this
/// `read`. A transport error ends the query with that error, a frame with
/// its decoded status, and silence after the last allowed poll with
/// `BadStatus`.
pub fn poll_status(polls_done: usize, read: Result<Vec<u8>, Error>) -> (r: Poll)
    requires
        polls_done < STATUS_POLLS,
    ensures
        match read {
            Err(err) => r == Poll::Answer(Err(err)),
            Ok(frame) => if frame@.len() > 0 {
                r matches Poll::Answer(answer) && status_answer(frame@, answer)
            } else if polls_done + 1 < STATUS_POLLS {
                r is Wait
            } else {
                r matches Poll::Answer(Err(Error::BadStatus(detail))) && detail@ == "no response after "@
                    + decimal(STATUS_POLLS as nat) + " polls"@
            },
        },
{
    match read {
        Err(err) => Poll::Answer(Err(err)),
        Ok(frame) => {
            if frame.len() > 0 {
                Poll::Answer(parse_status(frame.as_slice()))
            } else if polls_done + 1 < STATUS_POLLS {
                Poll::Wait
            } else {
                let mut s = String::from_str("no response after ");
                s.append(decimal_string(STATUS_POLLS as u64).as_str());
                s.append(" polls");
                Poll::Answer(Err(Error::BadStatus(s)))
            }
        },
    }
}

/// Whether bit `k` (most significant first) of `byte` is set.
pub open spec fn byte_bit(byte: u8, k: u8) -> bool {
    byte & (0x80u8 >> k) != 0
}

/// Whether head pixel `k` is set in a raster line: bit `k % 8` of byte `k / 8`.
pub open spec fn head_bit(line: Seq<u8>, k: int) -> bool {
    byte_bit(line[k / 8], (k % 8) as u8)
}

proof fn lemma_or_bit(byte: u8, j: u8, k: u8)
    requires
        j < 8,
        k < 8,
    ensures
        byte_bit(byte | (0x80u8 >> j), k) == (byte_bit(byte, k) || j == k),
{
    assert((byte | (0x80u8 >> j)) & (0x80u8 >> k) != 0 == (byte & (0x80u8 >> k) != 0 || j == k))
        by (bit_vector)
        requires
            j < 8,
            k < 8,
    ;
}

proof fn lemma_zero_bits(k: u8)
    requires
        k < 8,
    ensures
        !byte_bit(0u8, k),
{
    assert(0u8 & (0x80u8 >> k) == 0) by (bit_vector);
}

/// Whether row `row` of the column, counted from the bottom, is ink.
pub open spec fn column_ink(bitmap: &Bitmap, column: int, row: int) -> bool {
    bitmap.ink(column, bitmap.height - 1 - row)
}

/// The raster line for `column`: head pixel `k` is set exactly when it
/// falls on a row of the bitmap (the bottom row at `offset`) that is ink.
pub open spec fn raster_line_matches(line: Seq<u8>, bitmap: &Bitmap, column: int, offset: int) -> bool {
    &&& line.len() == BYTES_PER_LINE
    &&& forall|k: int|
        0 <= k < MAX_PX ==> #[trigger] head_bit(line, k) == (offset <= k < offset + bitmap.height
            && column_ink(bitmap, column, k - offset))
}

/// `packet` is the raster packet for `column`: `47 11 00 0f` then the line.
pub open spec fn raster_packet_matches(packet: Seq<u8>, bitmap: &Bitmap, column: int, offset: int) -> bool {
    &&& packet.len() == 4 + BYTES_PER_LINE
    &&& packet.take(4) == seq![0x47u8, 0x11u8, 0x00u8, 0x0fu8]
    &&& raster_line_matches(packet.skip(4), bitmap, column, offset)
}

/// One raster packet for a bitmap column: rows go out bottom-up, the
/// bottom row on head pixel `offset`.
pub fn raster_packet(bitmap: &Bitmap, column: usize, offset: usize) -> (r: Vec<u8>)
    requires
        bitmap.wf(),
        bitmap.height > 0 ==> column < bitmap.width,
        forall|row: int|
            0 <= row < bitmap.height && #[trigger] column_ink(bitmap, column as int, row) ==> offset
                + row < MAX_PX,
    ensures
        raster_packet_matches(r@, bitmap, column as int, offset as int),
{
    let mut line: Vec<u8> = vec![0u8; BYTES_PER_LINE];
    assert forall|k: int| 0 <= k < MAX_PX implies !#[trigger] head_bit(line@, k) by {
        lemma_zero_bits((k % 8) as u8);
    }
    let mut row: usize = 0;
    while row < bitmap.height
        invariant
            bitmap.wf(),
            bitmap.height > 0 ==> column < bitmap.width,
            forall|r: int|
                0 <= r < bitmap.height && #[trigger] column_ink(bitmap, column as int, r) ==> offset
                    + r < MAX_PX,
            row <= bitmap.height,
            line@.len() == BYTES_PER_LINE,
            forall|k: int|
                0 <= k < MAX_PX ==> #[trigger] head_bit(line@, k) == (offset <= k < offset + row
                    && column_ink(bitmap, column as int, k - offset)),
        decreases bitmap.height - row,
    {
        let y = bitmap.height - 1 - row;
        proof {
            assert(y * bitmap.width + column < bitmap.width * bitmap.height) by (nonlinear_arith)
                requires
                    y < bitmap.height,
                    column < bitmap.width,
            ;
        }
        if bitmap.get(column, y) {
            assert(column_ink(bitmap, column as int, row as int));
            let bit = offset + row;
            let idx = bit / 8;
            let j: u8 = (bit % 8) as u8;
            let ghost old_line = line@;
            let updated = line[idx] | (0x80u8 >> j);
            line.set(idx, updated);
            assert forall|k: int| 0 <= k < MAX_PX implies #[trigger] head_bit(line@, k) == (offset
                <= k < offset + row + 1 && column_ink(bitmap, column as int, k - offset)) by {
                let kb = (k % 8) as u8;
                if k / 8 == idx {
                    lemma_or_bit(old_line[idx as int], j, kb);
                    assert(head_bit(old_line, k) == (offset <= k < offset + row && column_ink(
                        bitmap,
                        column as int,
                        k - offset,
                    )));
                } else {
                    assert(head_bit(old_line, k) == (offset <= k < offset + row && column_ink(
                        bitmap,
                        column as int,
                        k - offset,
                    )));
                }
            }
        } else {
            assert(!column_ink(bitmap, column as int, row as int));
        }
        row = row + 1;
    }
    let mut packet: Vec<u8> = vec![0x47u8, 0x11u8, 0x00u8, 0x0fu8];
    let mut i: usize = 0;
    while i < BYTES_PER_LINE
        invariant
            line@.len() == BYTES_PER_LINE,
            i <= BYTES_PER_LINE,
            packet@ =~= seq![0x47u8, 0x11u8, 0x00u8, 0x0fu8] + line@.take(i as int),
        decreases BYTES_PER_LINE - i,
    {
        packet.push(line[i]);
        i = i + 1;
        assert(line@.take(i as int) =~= line@.take(i - 1).push(line@[i - 1]));
    }
    assert(line@.take(BYTES_PER_LINE as int) =~= line@);
    assert(packet@.skip(4) =~= line@);
    assert(packet@.take(4) =~= seq![0x47u8, 0x11u8, 0x00u8, 0x0fu8]);
    packet
}

/// Head pixel of the bitmap's bottom row, which centres it on the head.
pub open spec fn raster_offset(height: int) -> int {
    (MAX_PX - height) / 2
}

/// Index of the first raster packet: after `PackBits`, raster mode and,
/// when asked for, the precut.
pub open spec fn raster_start(precut: bool) -> int {
    if precut {
        3
    } else {
        2
    }
}

/// The bytes of the packet that carries column `column`, when the columns
/// start at command `head`.
pub open spec fn packet_at(commands: Seq<Vec<u8>>, head: int, column: int) -> Seq<u8> {
    commands[head + column]@
}

/// `commands` send `bitmap` after the status: `PackBits`, raster mode, the
/// precut when asked for, one raster packet per column (left to right,
/// centred on the head) and the eject.
pub open spec fn commands_match(commands: Seq<Vec<u8>>, bitmap: &Bitmap, precut: bool) -> bool {
    let head = raster_start(precut);
    &&& commands.len() == head + bitmap.width + 1
    &&& commands[0]@ == PACKBITS_ENABLE@
    &&& commands[1]@ == RASTER_MODE@
    &&& precut ==> commands[2]@ == PRECUT@
    &&& forall|c: int|
        0 <= c < bitmap.width ==> raster_packet_matches(
            #[trigger] packet_at(commands, head, c),
            bitmap,
            c,
            raster_offset(bitmap.height as int),
        )
    &&& commands[head + bitmap.width]@ == EJECT@
}

/// What follows the status query once the label is rendered: the render
/// error, `TooTall` when the bitmap does not fit the loaded tape (nothing
/// then goes to the printer), or the packets that print it.
pub fn print_commands(status: &Status, rendered: Result<Bitmap, String>, precut: bool) -> (r: Result<
    Vec<Vec<u8>>,
    Error,
>)
    requires
        rendered matches Ok(bitmap) ==> bitmap.wf() && (bitmap.height <= status.tape_px
            ==> bitmap.height <= MAX_PX),
    ensures
        match rendered {
            Err(detail) => r == Err::<Vec<Vec<u8>>, Error>(Error::Render(detail)),
            Ok(bitmap) => if bitmap.height > status.tape_px {
                r == Err::<Vec<Vec<u8>>, Error>(
                    Error::TooTall { height: bitmap.height, tape_px: status.tape_px },
                )
            } else {
                r matches Ok(commands) && commands_match(commands@, &bitmap, precut)
            },
        },
{
    let bitmap = match rendered {
        Err(detail) => return Err(Error::Render(detail)),
        Ok(bitmap) => bitmap,
    };
    if bitmap.height > status.tape_px {
        return Err(Error::TooTall { height: bitmap.height, tape_px: status.tape_px });
    }
    let mut commands: Vec<Vec<u8>> = Vec::new();
    commands.push(vec![PACKBITS_ENABLE[0], PACKBITS_ENABLE[1]]);
    commands.push(vec![RASTER_MODE[0], RASTER_MODE[1], RASTER_MODE[2], RASTER_MODE[3]]);
    if precut {
        commands.push(vec![PRECUT[0], PRECUT[1], PRECUT[2], PRECUT[3]]);
    }
    let head: usize = if precut { 3 } else { 2 };
    let offset = (MAX_PX - bitmap.height) / 2;
    let mut column: usize = 0;
    while column < bitmap.width
        invariant
            bitmap.wf(),
            bitmap.height <= MAX_PX,
            offset == raster_offset(bitmap.height as int),
            head == raster_start(precut),
            column <= bitmap.width,
            commands@.len() == head + column,
            commands@[0]@ == PACKBITS_ENABLE@,
            commands@[1]@ == RASTER_MODE@,
            precut ==> commands@[2]@ == PRECUT@,
            forall|c: int|
                0 <= c < column ==> raster_packet_matches(
                    #[trigger] packet_at(commands@, head as int, c),
                    &bitmap,
                    c,
                    offset as int,
                ),
        decreases bitmap.width - column,
    {
        let packet = raster_packet(&bitmap, column, offset);
        let ghost before = commands@;
        commands.push(packet);
        assert forall|c: int| 0 <= c < column + 1 implies raster_packet_matches(
            #[trigger] packet_at(commands@, head as int, c),
            &bitmap,
            c,
            offset as int,
        ) by {
            if c < column {
                assert(packet_at(commands@, head as int, c) == packet_at(before, head as int, c));
            }
        }
        column = column + 1;
    }
    let ghost before = commands@;
    commands.push(vec![EJECT[0]]);
    assert forall|c: int| 0 <= c < bitmap.width implies raster_packet_matches(
        #[trigger] packet_at(commands@, head as int, c),
        &bitmap,
        c,
        offset as int,
    ) by {
        assert(packet_at(commands@, head as int, c) == packet_at(before, head as int, c));
    }
    Ok(commands)
}

/// Every packet of a print job fits the printer's 128-byte bulk packets.
pub proof fn lemma_commands_fit_bulk_packets(commands: Seq<Vec<u8>>, bitmap: &Bitmap, precut: bool)
    requires
        commands_match(commands, bitmap, precut),
    ensures
        forall|i: int| 0 <= i < commands.len() ==> #[trigger] commands[i]@.len() <= MAX_PX,
{
    let head = raster_start(precut);
    assert forall|i: int| 0 <= i < commands.len() implies #[trigger] commands[i]@.len() <= MAX_PX by {
        if head <= i < head + bitmap.width {
            assert(raster_packet_matches(packet_at(commands, head, i - head), bitmap, i - head, raster_offset(bitmap.height as int)));
        }
    }
}

/// A label is centred across the print head: every column goes out with
/// its bottom row `below` pixels up the head, the rows in order above it,
/// and the blank head pixels above the label are as many as below it, or
/// one more when the difference is odd.
pub proof fn lemma_label_centred_on_head(
    commands: Seq<Vec<u8>>,
    bitmap: &Bitmap,
    precut: bool,
    column: int,
)
    requires
        commands_match(commands, bitmap, precut),
        bitmap.height <= MAX_PX,
        0 <= column < bitmap.width,
    ensures
        exists|below: int|
            #![trigger raster_line_matches(
                packet_at(commands, raster_start(precut), column).skip(4),
                bitmap,
                column,
                below,
            )]
            {
                &&& 0 <= below
                &&& below + bitmap.height <= MAX_PX
                &&& below <= MAX_PX - bitmap.height - below <= below + 1
                &&& forall|k: int|
                    0 <= k < MAX_PX ==> #[trigger] head_bit(
                        packet_at(commands, raster_start(precut), column).skip(4),
                        k,
                    ) == (below <= k < below + bitmap.height && column_ink(
                        bitmap,
                        column,
                        k - below,
                    ))
            },
{
    let below = raster_offset(bitmap.height as int);
    assert(raster_packet_matches(
        packet_at(commands, raster_start(precut), column),
        bitmap,
        column,
        below,
    ));
    assert(0 <= below);
    assert(below + bitmap.height <= MAX_PX);
    assert(below <= MAX_PX - bitmap.height - below <= below + 1);
}

} // verus!
