//! Label printing for the Brother PT-P700: label text rules, the raster
//! protocol, bitmap handling and the font catalog.

pub mod fonts;
pub mod ptouch;
pub mod render;
pub mod text;

use vstd::prelude::*;
use base64::Engine;
pub use crate::fonts::{FontCandidate, FontCatalog, FontSource, EMBEDDED_FONT_ID};
use crate::fonts::{compare_strs, Order};
use crate::ptouch::{status_of, tape_px_of, tape_width_px, Status, MAX_PX};
use crate::render::{encode_png, gray, png_gray8, Align, Bitmap};
use crate::text::{
    chars_of, decimal, decimal_string, is_white_space, is_whitespace, joined,
    lemma_split_joined, lemma_split_pieces_have_no_newline, lemma_trim_end_prefix,
    lemma_trimmed_lines_are_trimmed, no_newline, signed_decimal, signed_decimal_string,
    split_lines, strings_view, trim_end, trimmed_lines,
};

verus! {

/// Blank tape kept free on each edge, as a percentage of the tape width.
pub const DEFAULT_OFFSET_PERCENT: u8 = 5;
/// Largest offset that still leaves some tape to print on.
pub const MAX_OFFSET_PERCENT: u8 = 49;
/// Full size: the largest font that fits the tape after the offset.
pub const DEFAULT_FONT_SCALE_PERCENT: u8 = 100;
pub const MIN_FONT_SCALE_PERCENT: u8 = 10;
/// Tape fed before and after a label unless asked otherwise: the printer's
/// minimum.
pub const DEFAULT_MARGIN_MM: u8 = 2;
pub const MIN_MARGIN_MM: u8 = 2;
pub const MAX_MARGIN_MM: u8 = 127;
/// Tape assumed by previews when no printer has been asked.
pub const DEFAULT_TAPE_MM: u8 = 12;
/// HTTP port used when `PORT` is unset.
pub const DEFAULT_PORT: u16 = 3000;

/// One label to print or preview.
#[derive(Debug, Clone, PartialEq, Eq)]
pub struct PrintJob {
    pub lines: Vec<String>,
    pub offset_percent: u8,
    /// Font id from the font catalog; `None` selects the catalog default.
    pub font: Option<String>,
    /// Shrinks the auto-fitted size; 100 keeps it.
    pub font_scale_percent: u8,
    /// Placement of lines shorter than the longest.
    pub align: Align,
    /// Tape fed before and after the label, in mm.
    pub margin_mm: u8,
}

/// A print or preview request as the HTTP API receives it. The numbers are
/// wide so that -1 or 256 reach the range checks.
pub struct PrintRequest {
    pub text: String,
    pub offset_percent: Option<i64>,
    pub font: Option<String>,
    pub font_scale_percent: Option<i64>,
    /// `left`, `center` or `right`.
    pub align: Option<String>,
    pub margin_mm: Option<i64>,
    /// Preview only: the tape to assume.
    pub tape_mm: Option<i64>,
}

/// Pixels available for text once `offset_percent` of the tape width
/// (rounded to whole pixels) is left blank on each edge; none when the
/// edges cover the tape.
pub open spec fn spec_print_height(tape_px: int, offset_percent: int) -> int {
    let edge = (tape_px * offset_percent + 50) / 100;
    if tape_px >= 2 * edge {
        tape_px - 2 * edge
    } else {
        0
    }
}

/// Pixels available for text once `offset_percent` of the tape width is
/// left blank on each edge.
pub fn print_height(tape_px: usize, offset_percent: u8) -> (r: usize)
    requires
        tape_px * offset_percent + 50 <= usize::MAX,
    ensures
        r == spec_print_height(tape_px as int, offset_percent as int),
        r <= tape_px,
        offset_percent == 0 ==> r == tape_px,
{
    let edge = (tape_px * (offset_percent as usize) + 50) / 100;
    tape_px.saturating_sub(2 * edge)
}

/// A percentage field: the default when absent, the value when it lies in
/// `min..=max`, otherwise `None`.
pub open spec fn percent_value(value: Option<i64>, default: u8, min: u8, max: u8) -> Option<u8> {
    match value {
        None => Some(default),
        Some(v) => if min <= v <= max {
            Some(v as u8)
        } else {
            None
        },
    }
}

/// The message for a field out of its range.
pub open spec fn range_message(name: Seq<char>, min: u8, max: u8, value: i64) -> Seq<char> {
    name + " must be "@ + decimal(min as nat) + "..="@ + decimal(max as nat) + ", got "@
        + signed_decimal(value as int)
}

/// Validates an optional integer field into `min..=max`.
pub fn percent(value: Option<i64>, default: u8, min: u8, max: u8, name: &str) -> (r: Result<
    u8,
    String,
>)
    ensures
        match percent_value(value, default, min, max) {
            Some(p) => r == Ok::<u8, String>(p),
            None => r matches Err(message) && message@ == range_message(name@, min, max, value->0),
        },
{
    match value {
        None => Ok(default),
        Some(v) => {
            if (min as i64) <= v && v <= (max as i64) {
                Ok(v as u8)
            } else {
                let mut message = String::from_str(name);
                message.append(" must be ");
                message.append(decimal_string(min as u64).as_str());
                message.append("..=");
                message.append(decimal_string(max as u64).as_str());
                message.append(", got ");
                message.append(signed_decimal_string(v).as_str());
                Err(message)
            }
        },
    }
}

/// What an optional string holds.
pub open spec fn option_view(o: Option<String>) -> Option<Seq<char>> {
    match o {
        Some(s) => Some(s@),
        None => None,
    }
}

/// The placement a request names (`left` when it names none), or `None`
/// for an unknown name.
pub open spec fn align_value(align: Option<Seq<char>>) -> Option<Align> {
    match align {
        None => Some(Align::Left),
        Some(name) => if name == "left"@ {
            Some(Align::Left)
        } else if name == "center"@ {
            Some(Align::Center)
        } else if name == "right"@ {
            Some(Align::Right)
        } else {
            None
        },
    }
}

/// Reads the `align` option, or says which names it takes.
pub fn parse_align(align: Option<&str>) -> (r: Result<Align, String>)
    ensures
        match align_value(match align {
            Some(s) => Some(s@),
            None => None,
        }) {
            Some(a) => r == Ok::<Align, String>(a),
            None => r matches Err(message) && message@ == "align must be left, center or right, got "@
                + align->0@,
        },
{
    match align {
        None => Ok(Align::Left),
        Some(name) => {
            if let Order::Equal = compare_strs(name, "left") {
                return Ok(Align::Left);
            }
            if let Order::Equal = compare_strs(name, "center") {
                return Ok(Align::Center);
            }
            if let Order::Equal = compare_strs(name, "right") {
                return Ok(Align::Right);
            }
            let mut message = String::from_str("align must be left, center or right, got ");
            message.append(name);
            Err(message)
        },
    }
}

/// Turns a request into a job, or the message of a 400 answer: blank text,
/// then an offset outside `0..=49`, then a scale outside `10..=100`.
pub fn job_from(request: &PrintRequest) -> (r: Result<PrintJob, String>)
    ensures
        if text_is_blank(request.text@) {
            r matches Err(message) && message@ == "text is empty"@
        } else if percent_value(
            request.offset_percent,
            DEFAULT_OFFSET_PERCENT,
            0,
            MAX_OFFSET_PERCENT,
        ) is None {
            r matches Err(message) && message@ == range_message(
                "offset_percent"@,
                0,
                MAX_OFFSET_PERCENT,
                request.offset_percent->0,
            )
        } else if percent_value(
            request.font_scale_percent,
            DEFAULT_FONT_SCALE_PERCENT,
            MIN_FONT_SCALE_PERCENT,
            100,
        ) is None {
            r matches Err(message) && message@ == range_message(
                "font_scale_percent"@,
                MIN_FONT_SCALE_PERCENT,
                100,
                request.font_scale_percent->0,
            )
        } else if align_value(option_view(request.align)) is None {
            r matches Err(message) && message@ == "align must be left, center or right, got "@
                + request.align->0@
        } else if percent_value(
            request.margin_mm,
            DEFAULT_MARGIN_MM,
            MIN_MARGIN_MM,
            MAX_MARGIN_MM,
        ) is None {
            r matches Err(message) && message@ == range_message(
                "margin_mm"@,
                MIN_MARGIN_MM,
                MAX_MARGIN_MM,
                request.margin_mm->0,
            )
        } else {
            r matches Ok(job) && {
                &&& are_label_lines(request.text@, strings_view(job.lines@))
                &&& Some(job.offset_percent) == percent_value(
                    request.offset_percent,
                    DEFAULT_OFFSET_PERCENT,
                    0,
                    MAX_OFFSET_PERCENT,
                )
                &&& Some(job.font_scale_percent) == percent_value(
                    request.font_scale_percent,
                    DEFAULT_FONT_SCALE_PERCENT,
                    MIN_FONT_SCALE_PERCENT,
                    100,
                )
                &&& option_view(job.font) == option_view(request.font)
                &&& Some(job.align) == align_value(option_view(request.align))
                &&& Some(job.margin_mm) == percent_value(
                    request.margin_mm,
                    DEFAULT_MARGIN_MM,
                    MIN_MARGIN_MM,
                    MAX_MARGIN_MM,
                )
            }
        },
{
    let lines = match label_lines(request.text.as_str()) {
        Some(lines) => lines,
        None => return Err(String::from_str("text is empty")),
    };
    let offset_percent = match percent(
        request.offset_percent,
        DEFAULT_OFFSET_PERCENT,
        0,
        MAX_OFFSET_PERCENT,
        "offset_percent",
    ) {
        Ok(p) => p,
        Err(message) => return Err(message),
    };
    let font_scale_percent = match percent(
        request.font_scale_percent,
        DEFAULT_FONT_SCALE_PERCENT,
        MIN_FONT_SCALE_PERCENT,
        100,
        "font_scale_percent",
    ) {
        Ok(p) => p,
        Err(message) => return Err(message),
    };
    let font = match &request.font {
        Some(id) => Some(id.clone()),
        None => None,
    };
    let align = match parse_align(
        match &request.align {
            Some(name) => Some(name.as_str()),
            None => None,
        },
    ) {
        Ok(a) => a,
        Err(message) => return Err(message),
    };
    let margin_mm = match percent(
        request.margin_mm,
        DEFAULT_MARGIN_MM,
        MIN_MARGIN_MM,
        MAX_MARGIN_MM,
        "margin_mm",
    ) {
        Ok(m) => m,
        Err(message) => return Err(message),
    };
    Ok(PrintJob { lines, offset_percent, font, font_scale_percent, align, margin_mm })
}

/// The tape a preview assumes: `tape_mm` (default 12) must be in `1..=99`
/// and a tape the PT-P700 takes.
pub fn preview_tape_px(tape_mm: Option<i64>) -> (r: Result<usize, String>)
    ensures
        match percent_value(tape_mm, DEFAULT_TAPE_MM, 1, 99) {
            None => r matches Err(message) && message@ == range_message(
                "tape_mm"@,
                1,
                99,
                tape_mm->0,
            ),
            Some(mm) => match tape_px_of(mm) {
                Some(px) if px <= MAX_PX => r == Ok::<usize, String>(px),
                _ => r matches Err(message) && message@ == "tape_mm "@ + decimal(mm as nat)
                    + " is not a PT-P700 tape"@,
            },
        },
{
    let mm = match percent(tape_mm, DEFAULT_TAPE_MM, 1, 99, "tape_mm") {
        Ok(mm) => mm,
        Err(message) => return Err(message),
    };
    match tape_width_px(mm) {
        Some(px) if px <= MAX_PX => Ok(px),
        _ => {
            let mut message = String::from_str("tape_mm ");
            message.append(decimal_string(mm as u64).as_str());
            message.append(" is not a PT-P700 tape");
            Err(message)
        },
    }
}

/// The value of a string of decimal digits.
pub open spec fn digits_value(s: Seq<char>) -> nat
    decreases s.len(),
{
    if s.len() == 0 {
        0
    } else {
        digits_value(s.drop_last()) * 10 + (s.last() as nat - 48) as nat
    }
}

/// Whether every character is an ASCII digit.
pub open spec fn all_digits(s: Seq<char>) -> bool {
    forall|i: int| 0 <= i < s.len() ==> '0' <= #[trigger] s[i] <= '9'
}

proof fn lemma_digits_value_grows(s: Seq<char>, i: int)
    requires
        0 <= i <= s.len(),
        all_digits(s),
    ensures
        digits_value(s.take(i)) <= digits_value(s),
    decreases s.len() - i,
{
    if i < s.len() {
        lemma_digits_value_grows(s, i + 1);
        assert(s.take(i + 1).drop_last() =~= s.take(i));
    } else {
        assert(s.take(i) =~= s);
    }
}

/// `PORT`: unset means 3000; otherwise it must be ASCII digits only
/// (no sign, no space) naming a port from 1 to 65535.
pub fn parse_port(raw: Option<&str>) -> (r: Result<u16, String>)
    ensures
        match raw {
            None => r == Ok::<u16, String>(DEFAULT_PORT),
            Some(s) => if s@.len() > 0 && all_digits(s@) && 1 <= digits_value(s@) <= 65535 {
                r == Ok::<u16, String>(digits_value(s@) as u16)
            } else {
                r matches Err(message) && message@ == "PORT must be an integer from 1 to 65535"@
            },
        },
{
    let s = match raw {
        None => return Ok(DEFAULT_PORT),
        Some(s) => s,
    };
    let chars = chars_of(s);
    let mut value: u32 = 0;
    let mut i: usize = 0;
    let mut ok = chars.len() > 0;
    while ok && i < chars.len()
        invariant
            chars@ == s@,
            i <= chars@.len(),
            ok ==> all_digits(chars@.take(i as int)),
            ok ==> value == digits_value(chars@.take(i as int)),
            ok ==> value <= 65535,
            !ok ==> !(s@.len() > 0 && all_digits(s@) && 1 <= digits_value(s@) <= 65535),
        decreases chars@.len() - i + if ok { 1int } else { 0int },
    {
        let c = chars[i];
        assert(chars@.take(i + 1).drop_last() =~= chars@.take(i as int));
        if c < '0' || c > '9' {
            ok = false;
            assert(!all_digits(s@));
        } else {
            let digit = (c as u32) - 48;
            value = value * 10 + digit;
            i = i + 1;
            assert(all_digits(chars@.take(i as int)));
            if value > 65535 {
                ok = false;
                proof {
                    if all_digits(s@) {
                        lemma_digits_value_grows(s@, i as int);
                    }
                }
            }
        }
    }
    if ok {
        assert(chars@.take(i as int) =~= s@);
    }
    if ok && value >= 1 {
        Ok(value as u16)
    } else {
        Err(String::from_str("PORT must be an integer from 1 to 65535"))
    }
}

/// The character for a six-bit value in the standard base64 alphabet
/// (`A-Z`, `a-z`, `0-9`, `+`, `/`).
pub open spec fn base64_digit(v: int) -> char {
    if v < 26 {
        (65 + v) as char
    } else if v < 52 {
        (97 + v - 26) as char
    } else if v < 62 {
        (48 + v - 52) as char
    } else if v == 62 {
        '+'
    } else {
        '/'
    }
}

/// Standard base64 with padding: every three bytes become four characters,
/// six bits each, high bits first; a last group of one or two bytes is
/// padded with `=` to four characters.
pub open spec fn base64_standard(data: Seq<u8>) -> Seq<char>
    decreases data.len(),
{
    if data.len() == 0 {
        Seq::empty()
    } else if data.len() == 1 {
        let a = data[0] as int;
        seq![base64_digit(a / 4), base64_digit((a % 4) * 16), '=', '=']
    } else if data.len() == 2 {
        let a = data[0] as int;
        let b = data[1] as int;
        seq![base64_digit(a / 4), base64_digit((a % 4) * 16 + b / 16), base64_digit((b % 16) * 4), '=']
    } else {
        let a = data[0] as int;
        let b = data[1] as int;
        let c = data[2] as int;
        seq![
            base64_digit(a / 4),
            base64_digit((a % 4) * 16 + b / 16),
            base64_digit((b % 16) * 4 + c / 64),
            base64_digit(c % 64),
        ] + base64_standard(data.skip(3))
    }
}

/// `base64::engine::general_purpose::STANDARD.encode`. Trusted: the text is
/// the standard padded base64 of the bytes, `base64_standard`.
#[verifier::external_body]
fn base64_encode(data: &Vec<u8>) -> (r: String)
    ensures
        r@ == base64_standard(data@),
{
    base64::engine::general_purpose::STANDARD.encode(data)
}

/// What a preview answers besides the tape length: the label as a base64
/// PNG, its size, and the tape it was rendered for.
pub struct Preview {
    pub png_base64: String,
    pub width_px: usize,
    pub height_px: usize,
    pub tape_px: usize,
}

/// The preview of a rendered label for a tape of `tape_px` pixels, or the
/// PNG encoder's message.
pub fn preview_of(bitmap: &Bitmap, tape_px: usize) -> (r: Result<Preview, String>)
    ensures
        r is Ok <==> png_gray8(bitmap.width as u32, bitmap.height as u32, gray(bitmap@)) is Some,
        r matches Ok(preview) ==> {
            &&& preview.png_base64@ == base64_standard(
                png_gray8(bitmap.width as u32, bitmap.height as u32, gray(bitmap@))->0,
            )
            &&& preview.width_px == bitmap.width
            &&& preview.height_px == bitmap.height
            &&& preview.tape_px == tape_px
        },
        bitmap.wf() && 0 < bitmap.width <= u32::MAX && 0 < bitmap.height <= u32::MAX ==> r is Ok,
{
    match encode_png(bitmap) {
        Ok(png) => Ok(
            Preview {
                png_base64: base64_encode(&png),
                width_px: bitmap.width,
                height_px: bitmap.height,
                tape_px,
            },
        ),
        Err(message) => Err(message),
    }
}

/// The one-line summary of a printed label.
pub fn print_summary(width_px: usize, height_px: usize, media_width_mm: u8) -> (r: String)
    ensures
        r@ == "printed "@ + decimal(width_px as nat) + "x"@ + decimal(height_px as nat)
            + "px on "@ + decimal(media_width_mm as nat) + "mm tape"@,
{
    let mut r = String::from_str("printed ");
    r.append(decimal_string(width_px as u64).as_str());
    r.append("x");
    r.append(decimal_string(height_px as u64).as_str());
    r.append("px on ");
    r.append(decimal_string(media_width_mm as u64).as_str());
    r.append("mm tape");
    r
}

/// Prints one label. The USB implementation lives with the program; tests
/// substitute a recorder.
pub trait Printer: Send + Sync {
    /// Prints the job's lines top to bottom and returns a one-line summary,
    /// or a human-readable reason when the label could not be printed.
    fn print(&self, job: &PrintJob) -> Result<String, String>;
}

/// No line of `text` holds anything but white space.
pub open spec fn text_is_blank(text: Seq<char>) -> bool {
    forall|i: int|
        0 <= i < trimmed_lines(text).len() ==> #[trigger] trimmed_lines(text)[i].len() == 0
}

/// `lines` are the label lines of `text`: its trimmed lines from the first
/// to the last one with content.
pub open spec fn are_label_lines(text: Seq<char>, lines: Seq<Seq<char>>) -> bool {
    exists|first: int, last: int|
        content_span(trimmed_lines(text), first, last) && lines == trimmed_lines(text).subrange(
            first,
            last + 1,
        )
}

/// Lines `first..=last` of `lines` are the ones with content: both ends have
/// some, everything outside them has none.
pub open spec fn content_span(lines: Seq<Seq<char>>, first: int, last: int) -> bool {
    &&& 0 <= first <= last < lines.len()
    &&& lines[first].len() > 0
    &&& lines[last].len() > 0
    &&& forall|i: int| 0 <= i < first ==> #[trigger] lines[i].len() == 0
    &&& forall|i: int| last < i < lines.len() ==> #[trigger] lines[i].len() == 0
}

proof fn lemma_split_step(s: Seq<char>, i: int)
    requires
        0 <= i < s.len(),
    ensures
        s.take(i + 1).drop_last() == s.take(i),
        s.take(i + 1).last() == s[i],
{
    assert(s.take(i + 1).drop_last() =~= s.take(i));
}

/// Splits textarea text into label lines: one per line of `text`, each
/// without trailing white space, leading and trailing blank lines dropped
/// and inner blank lines kept. `None` when no line holds anything but
/// white space.
pub fn label_lines(text: &str) -> (r: Option<Vec<String>>)
    ensures
        r is None <==> text_is_blank(text@),
        r matches Some(v) ==> are_label_lines(text@, strings_view(v@)),
{
    let chars = chars_of(text);
    let n = chars.len();
    // Pieces between newlines, as char ranges of `text`.
    let mut pieces: Vec<(usize, usize)> = Vec::new();
    let mut start: usize = 0;
    let mut i: usize = 0;
    while i < n
        invariant
            n == chars@.len(),
            chars@ == text@,
            0 <= start <= i <= n,
            split_lines(chars@.take(i as int)).len() == pieces@.len() + 1,
            split_lines(chars@.take(i as int)).last() == chars@.subrange(start as int, i as int),
            forall|k: int|
                #![trigger pieces@[k]]
                0 <= k < pieces@.len() ==> {
                    &&& pieces@[k].0 <= pieces@[k].1 <= start
                    &&& split_lines(chars@.take(i as int))[k] == chars@.subrange(
                        pieces@[k].0 as int,
                        pieces@[k].1 as int,
                    )
                },
        decreases n - i,
    {
        proof {
            lemma_split_step(chars@, i as int);
        }
        let ghost before = split_lines(chars@.take(i as int));
        let ghost old_pieces = pieces@;
        let ghost old_start = start;
        if chars[i] == '\n' {
            pieces.push((start, i));
            start = i + 1;
            assert(split_lines(chars@.take(i + 1)) == before.push(Seq::<char>::empty()));
            assert(chars@.subrange(start as int, i + 1) =~= Seq::<char>::empty());
            assert forall|k: int| #![trigger pieces@[k]] 0 <= k < pieces@.len() implies {
                &&& pieces@[k].0 <= pieces@[k].1 <= start
                &&& split_lines(chars@.take(i + 1))[k] == chars@.subrange(
                    pieces@[k].0 as int,
                    pieces@[k].1 as int,
                )
            } by {
                if k < old_pieces.len() {
                    assert(pieces@[k] == old_pieces[k]);
                    assert(old_pieces[k].0 <= old_pieces[k].1 <= old_start);
                } else {
                    assert(pieces@[k] == (old_start, i));
                }
            }
        } else {
            assert(chars@.subrange(start as int, i + 1) =~= chars@.subrange(
                start as int,
                i as int,
            ).push(chars@[i as int]));
            assert(split_lines(chars@.take(i + 1)) == before.update(
                before.len() - 1,
                before.last().push(chars@[i as int]),
            ));
            assert forall|k: int| #![trigger pieces@[k]] 0 <= k < pieces@.len() implies {
                &&& pieces@[k].0 <= pieces@[k].1 <= start
                &&& split_lines(chars@.take(i + 1))[k] == chars@.subrange(
                    pieces@[k].0 as int,
                    pieces@[k].1 as int,
                )
            } by {
                assert(pieces@[k].0 <= pieces@[k].1 <= start);
            }
        }
        i = i + 1;
    }
    pieces.push((start, n));
    assert(chars@.take(n as int) =~= chars@);
    let ghost lines = split_lines(chars@);
    assert(lines.len() == pieces@.len());
    assert(forall|k: int|
        0 <= k < pieces@.len() ==> #[trigger] lines[k] == chars@.subrange(
            pieces@[k].0 as int,
            pieces@[k].1 as int,
        ) && pieces@[k].0 <= pieces@[k].1 <= n);
    // The same ranges without trailing white space.
    let mut spans: Vec<(usize, usize)> = Vec::new();
    let mut k: usize = 0;
    while k < pieces.len()
        invariant
            n == chars@.len(),
            chars@ == text@,
            lines == split_lines(text@),
            lines.len() == pieces@.len(),
            0 <= k <= pieces@.len(),
            spans@.len() == k,
            forall|j: int|
                0 <= j < pieces@.len() ==> #[trigger] lines[j] == chars@.subrange(
                    pieces@[j].0 as int,
                    pieces@[j].1 as int,
                ) && pieces@[j].0 <= pieces@[j].1 <= n,
            forall|j: int|
                0 <= j < k ==> {
                    &&& #[trigger] spans@[j].0 <= spans@[j].1 <= n
                    &&& trim_end(lines[j]) == chars@.subrange(
                        spans@[j].0 as int,
                        spans@[j].1 as int,
                    )
                },
        decreases pieces@.len() - k,
    {
        let (s, e0) = pieces[k];
        let mut e = e0;
        assert(lines[k as int] == chars@.subrange(s as int, e0 as int));
        while e > s && is_whitespace(chars[e - 1])
            invariant
                n == chars@.len(),
                s <= e <= e0 <= n,
                trim_end(chars@.subrange(s as int, e0 as int)) == trim_end(
                    chars@.subrange(s as int, e as int),
                ),
            decreases e,
        {
            assert(chars@.subrange(s as int, e as int).drop_last() =~= chars@.subrange(
                s as int,
                e - 1,
            ));
            e = e - 1;
        }
        spans.push((s, e));
        k = k + 1;
    }
    let ghost trimmed = trimmed_lines(text@);
    assert(trimmed.len() == spans@.len());
    assert(forall|j: int|
        0 <= j < spans@.len() ==> #[trigger] trimmed[j] == chars@.subrange(
            spans@[j].0 as int,
            spans@[j].1 as int,
        ) && spans@[j].0 <= spans@[j].1 <= n);
    // First and last lines with content.
    let count = spans.len();
    let mut first: usize = 0;
    while first < count && spans[first].0 == spans[first].1
        invariant
            count == spans@.len() == trimmed.len(),
            n == chars@.len(),
            first <= count,
            forall|j: int|
                #![trigger trimmed[j]]
                #![trigger spans@[j]]
                0 <= j < spans@.len() ==> trimmed[j] == chars@.subrange(
                    spans@[j].0 as int,
                    spans@[j].1 as int,
                ) && spans@[j].0 <= spans@[j].1 <= n,
            forall|j: int| 0 <= j < first ==> #[trigger] trimmed[j].len() == 0,
        decreases count - first,
    {
        assert(trimmed[first as int] =~= Seq::<char>::empty());
        first = first + 1;
    }
    if first == count {
        return None;
    }
    let mut last: usize = count - 1;
    while spans[last].0 == spans[last].1
        invariant
            count == spans@.len() == trimmed.len(),
            n == chars@.len(),
            first <= last < count,
            trimmed[first as int].len() > 0,
            forall|j: int|
                #![trigger trimmed[j]]
                #![trigger spans@[j]]
                0 <= j < spans@.len() ==> trimmed[j] == chars@.subrange(
                    spans@[j].0 as int,
                    spans@[j].1 as int,
                ) && spans@[j].0 <= spans@[j].1 <= n,
            forall|j: int| last < j < count ==> #[trigger] trimmed[j].len() == 0,
        decreases last,
    {
        assert(trimmed[last as int] =~= Seq::<char>::empty());
        last = last - 1;
    }
    let mut out: Vec<String> = Vec::new();
    let mut j: usize = first;
    while j <= last
        invariant
            count == spans@.len() == trimmed.len(),
            chars@ == text@,
            n == chars@.len(),
            first <= j <= last + 1,
            last < count,
            out@.len() == j - first,
            forall|m: int|
                #![trigger trimmed[m]]
                #![trigger spans@[m]]
                0 <= m < spans@.len() ==> trimmed[m] == chars@.subrange(
                    spans@[m].0 as int,
                    spans@[m].1 as int,
                ) && spans@[m].0 <= spans@[m].1 <= n,
            forall|m: int| 0 <= m < out@.len() ==> #[trigger] out@[m]@ == trimmed[first + m],
        decreases last + 1 - j,
    {
        let (s, e) = spans[j];
        let line = String::from_str(text.substring_char(s, e));
        out.push(line);
        j = j + 1;
    }
    assert(content_span(trimmed, first as int, last as int));
    assert(strings_view(out@) =~= trimmed.subrange(first as int, last + 1));
    Some(out)
}

/// Label lines are never empty as a whole and never begin or end with a
/// blank line; no line ends in white space; and there are no more of them
/// than lines in the text.
pub proof fn lemma_label_lines_shape(text: Seq<char>, lines: Seq<Seq<char>>)
    requires
        are_label_lines(text, lines),
    ensures
        lines.len() > 0,
        lines[0].len() > 0,
        lines.last().len() > 0,
        lines.len() <= split_lines(text).len(),
        forall|i: int|
            0 <= i < lines.len() ==> #[trigger] lines[i].len() == 0 || !is_white_space(
                lines[i].last(),
            ),
{
    let (first, last) = choose|first: int, last: int|
        content_span(trimmed_lines(text), first, last) && lines == trimmed_lines(text).subrange(
            first,
            last + 1,
        );
    assert forall|i: int| 0 <= i < lines.len() implies #[trigger] lines[i].len() == 0
        || !is_white_space(lines[i].last()) by {
        lemma_trimmed_lines_are_trimmed(text, first + i);
    }
}

/// A range check accepts every value in its range as itself, refuses
/// every value outside it, and an absent value takes the default.
pub proof fn lemma_percent_accepts_its_range(value: i64, default: u8, min: u8, max: u8)
    ensures
        min <= value <= max ==> percent_value(Some(value), default, min, max) == Some(value as u8)
            && value as u8 == value,
        !(min <= value <= max) ==> percent_value(Some(value), default, min, max) is None,
        percent_value(None, default, min, max) == Some(default),
{
}

/// A text of one line holding no white space is its own single label line.
pub proof fn lemma_one_word_is_its_own_label(text: Seq<char>)
    requires
        text.len() > 0,
        forall|i: int| 0 <= i < text.len() ==> !is_white_space(#[trigger] text[i]) && text[i] != '\n',
    ensures
        are_label_lines(text, seq![text]),
        !text_is_blank(text),
{
    assert(no_newline(text));
    lemma_split_joined(seq![text]);
    assert(joined(seq![text], seq!['\n']) == text);
    assert(split_lines(text) == seq![text]);
    assert(trim_end(text) == text);
    assert(trimmed_lines(text) =~= seq![text]);
    assert(content_span(trimmed_lines(text), 0, 0));
    assert(trimmed_lines(text).subrange(0, 1) =~= seq![text]);
    assert(trimmed_lines(text)[0].len() > 0);
}

/// The label lines of a text are determined by it: two results for one
/// text are the same lines.
pub proof fn lemma_label_lines_unique(text: Seq<char>, a: Seq<Seq<char>>, b: Seq<Seq<char>>)
    requires
        are_label_lines(text, a),
        are_label_lines(text, b),
    ensures
        a == b,
{
    let t = trimmed_lines(text);
    let (f1, l1) = choose|first: int, last: int|
        content_span(t, first, last) && a == t.subrange(first, last + 1);
    let (f2, l2) = choose|first: int, last: int|
        content_span(t, first, last) && b == t.subrange(first, last + 1);
    if f1 < f2 {
        assert(t[f1].len() == 0);
    }
    if f2 < f1 {
        assert(t[f2].len() == 0);
    }
    if l1 < l2 {
        assert(t[l2].len() == 0);
    }
    if l2 < l1 {
        assert(t[l1].len() == 0);
    }
}

/// Joining label lines with newlines and splitting the result again gives
/// the same lines: they are the label lines of their own join.
pub proof fn lemma_label_lines_round_trip(text: Seq<char>, lines: Seq<Seq<char>>)
    requires
        are_label_lines(text, lines),
    ensures
        !text_is_blank(joined(lines, seq!['\n'])),
        are_label_lines(joined(lines, seq!['\n']), lines),
{
    lemma_label_lines_shape(text, lines);
    let t = trimmed_lines(text);
    let (first, last) = choose|first: int, last: int|
        content_span(t, first, last) && lines == t.subrange(first, last + 1);
    lemma_split_pieces_have_no_newline(text);
    assert forall|i: int| 0 <= i < lines.len() implies no_newline(#[trigger] lines[i])
        && trim_end(lines[i]) == lines[i] by {
        let piece = split_lines(text)[first + i];
        assert(lines[i] == trim_end(piece));
        lemma_trim_end_prefix(piece);
        assert(no_newline(piece));
        assert forall|j: int| 0 <= j < lines[i].len() implies lines[i][j] != '\n' by {
            assert(lines[i][j] == piece[j]);
        }
        lemma_trimmed_lines_are_trimmed(text, first + i);
    }
    let j = joined(lines, seq!['\n']);
    lemma_split_joined(lines);
    assert(trimmed_lines(j) =~= lines);
    assert(content_span(lines, 0, lines.len() - 1));
    assert(lines.subrange(0, lines.len() as int) =~= lines);
    assert(trimmed_lines(j)[0].len() > 0);
}

/// A preview for the tape a printer reports renders for the same head
/// pixels the print uses: every tape `parse_status` accepts is one
/// `preview_tape_px` accepts, with the same printable width.
pub proof fn lemma_preview_tape_matches_status(frame: Seq<u8>, status: Status)
    requires
        status_of(frame) == Some(status),
    ensures
        percent_value(Some(status.media_width_mm as i64), DEFAULT_TAPE_MM, 1, 99) == Some(
            status.media_width_mm,
        ),
        tape_px_of(status.media_width_mm) == Some(status.tape_px),
        status.tape_px <= MAX_PX,
{
}

} // verus!
