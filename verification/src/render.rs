//! 1-bit label bitmaps: their pixels, the integer rules that size and place
//! the text lines, and the PNG preview.

use vstd::prelude::*;
use crate::text::{decimal, decimal_string, is_blank, is_white_space};

verus! {

/// Row-major 1-bit image: `true` is ink.
#[derive(Debug, Clone, PartialEq, Eq)]
pub struct Bitmap {
    pub width: usize,
    pub height: usize,
    /// Row after row, `width` pixels each.
    pub pixels: Vec<bool>,
}

impl View for Bitmap {
    type V = Seq<bool>;

    /// The pixels, row after row.
    open spec fn view(&self) -> Seq<bool> {
        self.pixels@
    }
}

impl Bitmap {
    /// Holds exactly `width * height` pixels.
    pub open spec fn wf(&self) -> bool {
        self@.len() == self.width * self.height
    }

    /// Whether the pixel in column `x`, row `y` is ink.
    pub open spec fn ink(&self, x: int, y: int) -> bool {
        self@[y * self.width + x]
    }

    /// Whether the bitmap holds exactly `width * height` pixels (`wf`); its
    /// fields are public, so a caller can break that.
    pub fn is_well_formed(&self) -> (r: bool)
        ensures
            r == self.wf(),
    {
        let len = self.pixels.len();
        match self.width.checked_mul(self.height) {
            Some(n) => n == len,
            None => false,
        }
    }

    /// A blank `width` x `height` bitmap.
    pub fn new(width: usize, height: usize) -> (r: Self)
        requires
            width * height <= usize::MAX,
        ensures
            r.width == width,
            r.height == height,
            r@ == Seq::new((width * height) as nat, |i: int| false),
            r.wf(),
    {
        let pixels = vec![false; width * height];
        let r = Bitmap { width, height, pixels };
        assert(r@ =~= Seq::new((width * height) as nat, |i: int| false));
        r
    }

    /// The pixel at column `x`, row `y`.
    pub fn get(&self, x: usize, y: usize) -> (r: bool)
        requires
            self.wf(),
            y * self.width + x < self.width * self.height,
        ensures
            r == self.ink(x as int, y as int),
    {
        let n = self.pixels.len();
        assert(y * self.width + x < n);
        self.pixels[y * self.width + x]
    }

    /// Inks the pixel at column `x`, row `y`.
    pub fn set(&mut self, x: usize, y: usize)
        requires
            old(self).wf(),
            y * old(self).width + x < old(self).width * old(self).height,
        ensures
            final(self).width == old(self).width,
            final(self).height == old(self).height,
            final(self)@ == old(self)@.update(y * old(self).width + x, true),
            final(self).wf(),
    {
        let n = self.pixels.len();
        assert(y * self.width + x < n);
        let i = y * self.width + x;
        self.pixels.set(i, true);
    }

    /// The pixels as 8-bit gray levels: ink 0x00, blank 0xff.
    pub fn gray_levels(&self) -> (r: Vec<u8>)
        ensures
            r@ == gray(self@),
    {
        let mut r: Vec<u8> = Vec::new();
        let mut i: usize = 0;
        while i < self.pixels.len()
            invariant
                i <= self.pixels@.len(),
                r@ =~= gray(self.pixels@.take(i as int)),
            decreases self.pixels@.len() - i,
        {
            assert(self.pixels@.take(i + 1) =~= self.pixels@.take(i as int).push(self.pixels@[i as int]));
            r.push(if self.pixels[i] { 0x00 } else { 0xff });
            i = i + 1;
        }
        assert(self.pixels@.take(i as int) =~= self.pixels@);
        r
    }
}

/// Gray levels for pixels: ink 0x00, blank 0xff.
pub open spec fn gray(pixels: Seq<bool>) -> Seq<u8> {
    pixels.map_values(|ink: bool| if ink { 0x00u8 } else { 0xffu8 })
}

/// The eight bytes every PNG file starts with.
pub open spec fn png_signature() -> Seq<u8> {
    seq![0x89u8, 0x50u8, 0x4eu8, 0x47u8, 0x0du8, 0x0au8, 0x1au8, 0x0au8]
}

/// What the `png` encoder produces for an 8-bit grayscale image of the
/// given size and row-major gray levels, or `None` when it refuses them.
pub uninterp spec fn png_gray8(width: u32, height: u32, data: Seq<u8>) -> Option<Seq<u8>>;

/// Encodes 8-bit grayscale rows with `png::Encoder` (header, then the image
/// data, the end chunk written when the writer drops). Trusted: the result
/// is `png_gray8` of the arguments; an empty side fails; a non-empty image
/// whose data holds one byte per pixel succeeds (the output goes to memory,
/// so no write fails); what succeeds starts with the PNG signature. The
/// error text is the encoder's message and is not stated.
#[verifier::external_body]
fn write_png_gray8(width: u32, height: u32, data: &Vec<u8>) -> (r: Result<Vec<u8>, String>)
    ensures
        r is Ok <==> png_gray8(width, height, data@) is Some,
        r matches Ok(bytes) ==> png_gray8(width, height, data@) == Some(bytes@),
        r matches Ok(bytes) ==> bytes@.len() >= 8 && bytes@.take(8) == png_signature(),
        width == 0 || height == 0 ==> r is Err,
        width > 0 && height > 0 && data@.len() == width * height ==> r is Ok,
{
    let mut out = Vec::new();
    {
        let mut encoder = png::Encoder::new(&mut out, width, height);
        encoder.set_color(png::ColorType::Grayscale);
        encoder.set_depth(png::BitDepth::Eight);
        let mut writer = encoder.write_header().map_err(|e| e.to_string())?;
        writer.write_image_data(data).map_err(|e| e.to_string())?;
    }
    Ok(out)
}

/// Encodes the bitmap as an 8-bit grayscale PNG: ink is 0x00, blank 0xff.
pub fn encode_png(bitmap: &Bitmap) -> (r: Result<Vec<u8>, String>)
    ensures
        r is Ok <==> png_gray8(bitmap.width as u32, bitmap.height as u32, gray(bitmap@)) is Some,
        r matches Ok(bytes) ==> png_gray8(bitmap.width as u32, bitmap.height as u32, gray(bitmap@))
            == Some(bytes@),
        r matches Ok(bytes) ==> bytes@.len() >= 8 && bytes@.take(8) == png_signature(),
        bitmap.wf() && 0 < bitmap.width <= u32::MAX && 0 < bitmap.height <= u32::MAX ==> r is Ok,
{
    let data = bitmap.gray_levels();
    write_png_gray8(bitmap.width as u32, bitmap.height as u32, &data)
}

/// Why text could not be laid out.
#[derive(Debug)]
pub enum RenderError {
    NoLines,
    TooSmall { print_height: usize, lines: usize },
}

impl RenderError {
    /// The human-readable message.
    pub fn to_string(&self) -> (r: String)
        ensures
            r@ == match self {
                RenderError::NoLines => "nothing to render"@,
                RenderError::TooSmall { print_height, lines } => decimal(*lines as nat)
                    + " lines do not fit into "@ + decimal(*print_height as nat) + "px of tape"@,
            },
    {
        match self {
            RenderError::NoLines => String::from_str("nothing to render"),
            RenderError::TooSmall { print_height, lines } => {
                let mut r = decimal_string(*lines as u64);
                r.append(" lines do not fit into ");
                r.append(decimal_string(*print_height as u64).as_str());
                r.append("px of tape");
                r
            },
        }
    }
}

/// Smallest font scale (px) ever used.
pub const MIN_SCALE: u32 = 4;
/// Largest font scale the size search tries.
pub const MAX_SCALE: u32 = 512;

/// What the size search does after measuring a line at one scale.
pub enum ScaleStep {
    /// The ink at this scale is taller than wanted: the search ends with the
    /// best scale found so far.
    Stop,
    /// The scale fits; `next` is the one to try after it, if any.
    Fits { next: Option<u32> },
}

/// One step of the font-size search:
/// scales `MIN_SCALE, MIN_SCALE + 1, ...` are tried in turn until the ink
/// height exceeds `want_px` or `MAX_SCALE` has been tried; the largest
/// fitting scale wins.
pub fn scale_search_step(scale: u32, ink_height: usize, want_px: usize) -> (r: ScaleStep)
    requires
        MIN_SCALE <= scale <= MAX_SCALE,
    ensures
        ink_height > want_px ==> r is Stop,
        ink_height <= want_px && scale < MAX_SCALE ==> r == (ScaleStep::Fits { next: Some((scale + 1) as u32) }),
        ink_height <= want_px && scale == MAX_SCALE ==> r == (ScaleStep::Fits { next: None }),
{
    if ink_height > want_px {
        ScaleStep::Stop
    } else if scale + 1 > MAX_SCALE {
        ScaleStep::Fits { next: None }
    } else {
        ScaleStep::Fits { next: Some(scale + 1) }
    }
}

/// The smallest of the scales (`u32::MAX` for none).
pub open spec fn min_scale(scales: Seq<u32>) -> u32
    decreases scales.len(),
{
    if scales.len() == 0 {
        u32::MAX
    } else {
        let rest = min_scale(scales.drop_last());
        if scales.last() < rest {
            scales.last()
        } else {
            rest
        }
    }
}

/// The scale every line is set at: the smallest of the lines' best scales
/// (`MIN_SCALE` when every line is blank), shrunk to `scale_percent`, never
/// below `MIN_SCALE`. A line with no fitting scale makes the text too small
/// for the tape.
pub open spec fn common_scale(best: Seq<u32>, scale_percent: u8) -> u32 {
    let base = if best.len() == 0 {
        MIN_SCALE as int
    } else {
        min_scale(best) as int
    };
    let shrunk = base * scale_percent / 100;
    if shrunk < MIN_SCALE {
        MIN_SCALE
    } else {
        shrunk as u32
    }
}

/// Where a line narrower than the label sits.
#[derive(Debug, Clone, Copy, PartialEq, Eq, Structural)]
pub enum Align {
    Left,
    Center,
    Right,
}

/// The column where a line `width` px wide starts inside a label
/// `frame_width` px wide.
pub open spec fn aligned_left(align: Align, frame_width: int, width: int) -> int {
    match align {
        Align::Left => 0,
        Align::Center => (frame_width - width) / 2,
        Align::Right => frame_width - width,
    }
}

/// Blank columns fed on each side of a label for a margin of `margin_mm`:
/// the printer itself feeds the 2mm minimum, and the rest is added at 180
/// dpi, rounded to the nearest column.
pub open spec fn margin_px(margin_mm: u8) -> int {
    if margin_mm <= 2 {
        0
    } else {
        ((margin_mm - 2) * 1800 + 127) / 254
    }
}

/// Blank columns fed on each side of a label (see `margin_px`).
pub fn margin_columns(margin_mm: u8) -> (r: usize)
    ensures
        r == margin_px(margin_mm),
        r <= 1800,
{
    if margin_mm <= 2 {
        0
    } else {
        let extra = (margin_mm - 2) as usize;
        assert((extra * 1800 + 127) / 254 <= 1800) by (nonlinear_arith)
            requires
                extra <= 253,
        ;
        (extra * 1800 + 127) / 254
    }
}

/// The first column of each line in a label whose text is `frame_width` px
/// wide, with `margin` blank columns before it: lines are placed by `align`.
pub fn line_lefts(widths: &Vec<usize>, frame_width: usize, align: Align, margin: usize) -> (r: Vec<
    usize,
>)
    requires
        forall|i: int| 0 <= i < widths@.len() ==> #[trigger] widths@[i] <= frame_width,
        margin + frame_width <= usize::MAX,
    ensures
        r@.len() == widths@.len(),
        forall|i: int|
            0 <= i < widths@.len() ==> #[trigger] r@[i] == margin + aligned_left(
                align,
                frame_width as int,
                widths@[i] as int,
            ),
{
    let mut r: Vec<usize> = Vec::new();
    let mut i: usize = 0;
    while i < widths.len()
        invariant
            i <= widths@.len(),
            r@.len() == i,
            forall|j: int| 0 <= j < widths@.len() ==> #[trigger] widths@[j] <= frame_width,
            margin + frame_width <= usize::MAX,
            forall|j: int|
                0 <= j < i ==> #[trigger] r@[j] == margin + aligned_left(
                    align,
                    frame_width as int,
                    widths@[j] as int,
                ),
        decreases widths@.len() - i,
    {
        let w = widths[i];
        let left = match align {
            Align::Left => 0,
            Align::Center => (frame_width - w) / 2,
            Align::Right => frame_width - w,
        };
        r.push(margin + left);
        i = i + 1;
    }
    r
}

/// Whether a line holds nothing but white space.
pub open spec fn blank_line(line: Seq<char>) -> bool {
    forall|i: int| 0 <= i < line.len() ==> is_white_space(#[trigger] line[i])
}

/// The positions, in order, of the lines that hold more than white space.
pub open spec fn non_blank_positions(lines: Seq<Seq<char>>) -> Seq<usize>
    decreases lines.len(),
{
    if lines.len() == 0 {
        Seq::empty()
    } else if blank_line(lines.last()) {
        non_blank_positions(lines.drop_last())
    } else {
        non_blank_positions(lines.drop_last()).push((lines.len() - 1) as usize)
    }
}

/// What the font-size search measures: each line's share of the print
/// height, and the lines it measures (those with more than white space).
pub struct MeasurePlan {
    pub slot: usize,
    pub measured: Vec<usize>,
}

/// Plans the size search for `lines` on `print_height` rows: `NoLines` when
/// there are none; otherwise every line gets `print_height / lines` rows and
/// the non-blank ones are measured, in order.
pub fn measure_plan(lines: &[&str], print_height: usize) -> (r: Result<MeasurePlan, RenderError>)
    ensures
        lines@.len() == 0 ==> r is Err && r->Err_0 is NoLines,
        lines@.len() > 0 ==> (r matches Ok(plan) && plan.slot == print_height as int / lines@.len() as int
            && plan.measured@ == non_blank_positions(lines@.map_values(|l: &str| l@))),
{
    if lines.len() == 0 {
        return Err(RenderError::NoLines);
    }
    let ghost views = lines@.map_values(|l: &str| l@);
    let mut measured: Vec<usize> = Vec::new();
    let mut i: usize = 0;
    while i < lines.len()
        invariant
            i <= lines@.len(),
            views == lines@.map_values(|l: &str| l@),
            measured@ == non_blank_positions(views.take(i as int)),
        decreases lines@.len() - i,
    {
        let ghost before = views.take(i as int);
        assert(views.take(i + 1).drop_last() =~= before);
        assert(views.take(i + 1).last() == lines@[i as int]@);
        if !is_blank(lines[i]) {
            measured.push(i);
        }
        i = i + 1;
    }
    assert(views.take(i as int) =~= views);
    Ok(MeasurePlan { slot: print_height / lines.len(), measured })
}

/// The scale for the whole label from each non-blank line's search result
/// (`found`), or `TooSmall` when some line fits at no scale.
pub fn label_scale(found: &Vec<Option<u32>>, scale_percent: u8, print_height: usize, lines: usize) -> (r:
    Result<u32, RenderError>)
    requires
        forall|i: int| 0 <= i < found@.len() ==> (#[trigger] found@[i] matches Some(s) ==> s
            <= MAX_SCALE),
    ensures
        (exists|i: int| 0 <= i < found@.len() && #[trigger] found@[i] is None) ==> r
            == Err::<u32, RenderError>(RenderError::TooSmall { print_height, lines }),
        (forall|i: int| 0 <= i < found@.len() ==> #[trigger] found@[i] is Some) ==> r == Ok::<
            u32,
            RenderError,
        >(common_scale(found@.map_values(|o: Option<u32>| o->0), scale_percent)),
{
    let mut best: u32 = u32::MAX;
    let mut i: usize = 0;
    while i < found.len()
        invariant
            i <= found@.len(),
            forall|j: int| 0 <= j < found@.len() ==> (#[trigger] found@[j] matches Some(s) ==> s
                <= MAX_SCALE),
            forall|j: int| 0 <= j < i ==> #[trigger] found@[j] is Some,
            best == min_scale(found@.take(i as int).map_values(|o: Option<u32>| o->0)),
            i > 0 ==> best <= MAX_SCALE,
        decreases found@.len() - i,
    {
        match found[i] {
            None => {
                return Err(RenderError::TooSmall { print_height, lines });
            },
            Some(s) => {
                assert(found@.take(i + 1).map_values(|o: Option<u32>| o->0).drop_last()
                    =~= found@.take(i as int).map_values(|o: Option<u32>| o->0));
                if s < best {
                    best = s;
                }
            },
        }
        i = i + 1;
    }
    assert(found@.take(i as int) =~= found@);
    let base = if best == u32::MAX { MIN_SCALE } else { best };
    assert(base <= MAX_SCALE);
    assert(base * (scale_percent as u32) <= 512 * 255) by (nonlinear_arith)
        requires
            base <= 512,
            scale_percent <= 255,
    ;
    let shrunk = base * (scale_percent as u32) / 100;
    Ok(if shrunk < MIN_SCALE { MIN_SCALE } else { shrunk })
}

/// The largest of the values (0 for none).
pub open spec fn max_of(values: Seq<usize>) -> usize
    decreases values.len(),
{
    if values.len() == 0 {
        0
    } else {
        let rest = max_of(values.drop_last());
        if values.last() > rest {
            values.last()
        } else {
            rest
        }
    }
}

proof fn lemma_max_of_bound(values: Seq<usize>)
    ensures
        forall|i: int| 0 <= i < values.len() ==> #[trigger] values[i] <= max_of(values),
        values.len() > 0 ==> exists|i: int| 0 <= i < values.len() && values[i] == max_of(values),
    decreases values.len(),
{
    if values.len() > 0 {
        lemma_max_of_bound(values.drop_last());
        assert forall|i: int| 0 <= i < values.len() implies #[trigger] values[i] <= max_of(values) by {
            if i < values.len() - 1 {
                assert(values[i] == values.drop_last()[i]);
            }
        }
        if values.len() > 1 && max_of(values) == max_of(values.drop_last()) {
            let j = choose|j: int| 0 <= j < values.drop_last().len() && values.drop_last()[j] == max_of(values.drop_last());
            assert(values[j] == max_of(values));
        } else {
            assert(values[values.len() - 1] == max_of(values));
        }
    }
}

/// Where the laid-out lines go: the bitmap width, the tallest line's ink,
/// and the top row of each line's slot.
pub struct LabelFrame {
    pub width: usize,
    pub ink_height: usize,
    pub tops: Vec<usize>,
}

/// Line `i`'s top: its slot (`print_height / lines` rows each) plus half of
/// its share of the rows no line's ink needs.
pub open spec fn line_top(i: int, print_height: int, lines: int, ink_height: int) -> int {
    let unused = print_height - ink_height * lines;
    i * (print_height / lines) + (unused / lines) / 2
}

/// Places the lines given each one's ink width and height (at the chosen
/// scale): the bitmap is as wide as the widest line (at least 1px), and the
/// text is too small for the tape when the tallest ink, once per line, does
/// not fit `print_height`.
pub fn label_frame(widths: &Vec<usize>, ink_heights: &Vec<usize>, print_height: usize) -> (r: Result<
    LabelFrame,
    RenderError,
>)
    requires
        widths@.len() == ink_heights@.len(),
        ink_heights@.len() > 0,
        forall|i: int| 0 <= i < ink_heights@.len() ==> #[trigger] ink_heights@[i] * ink_heights@.len() <= usize::MAX,
    ensures
        ({
            let n = ink_heights@.len() as int;
            let tallest = max_of(ink_heights@) as int;
            if tallest * n > print_height {
                r == Err::<LabelFrame, RenderError>(RenderError::TooSmall { print_height, lines: n as usize })
            } else {
                r matches Ok(frame) && {
                    &&& frame.width == if max_of(widths@) > 1 { max_of(widths@) } else { 1 }
                    &&& frame.ink_height == tallest
                    &&& frame.tops@.len() == n
                    &&& forall|i: int| 0 <= i < n ==> #[trigger] frame.tops@[i] == line_top(i, print_height as int, n, tallest)
                }
            }
        }),
{
    let n = ink_heights.len();
    let mut width: usize = 0;
    let mut tallest: usize = 0;
    let mut i: usize = 0;
    while i < n
        invariant
            n == ink_heights@.len() == widths@.len(),
            i <= n,
            width == max_of(widths@.take(i as int)),
            tallest == max_of(ink_heights@.take(i as int)),
        decreases n - i,
    {
        assert(widths@.take(i + 1).drop_last() =~= widths@.take(i as int));
        assert(ink_heights@.take(i + 1).drop_last() =~= ink_heights@.take(i as int));
        if widths[i] > width {
            width = widths[i];
        }
        if ink_heights[i] > tallest {
            tallest = ink_heights[i];
        }
        i = i + 1;
    }
    assert(widths@.take(n as int) =~= widths@);
    assert(ink_heights@.take(n as int) =~= ink_heights@);
    proof {
        lemma_max_of_bound(ink_heights@);
    }
    let needed = tallest * n;
    if needed > print_height {
        return Err(RenderError::TooSmall { print_height, lines: n });
    }
    let unused = print_height - needed;
    let slot = print_height / n;
    let margin = (unused / n) / 2;
    let mut tops: Vec<usize> = Vec::new();
    let mut k: usize = 0;
    while k < n
        invariant
            k <= n,
            n > 0,
            needed == tallest * n,
            needed <= print_height,
            unused == print_height - needed,
            slot == print_height / n,
            margin == (unused / n) / 2,
            tops@.len() == k,
            forall|j: int| 0 <= j < k ==> #[trigger] tops@[j] == line_top(j, print_height as int, n as int, tallest as int),
        decreases n - k,
    {
        proof {
            assert(margin <= slot) by (nonlinear_arith)
                requires
                    margin == (unused / n) / 2,
                    slot == print_height / n,
                    unused <= print_height,
                    n > 0,
            ;
            assert(k * slot + margin <= print_height) by (nonlinear_arith)
                requires
                    k < n,
                    margin <= slot,
                    slot == print_height / n,
                    n > 0,
            ;
        }
        tops.push(k * slot + margin);
        k = k + 1;
    }
    Ok(LabelFrame { width: if width > 1 { width } else { 1 }, ink_height: tallest, tops })
}

/// Each line's ink stays inside its own slot: line `i` starts no higher
/// than row `i * slot` and its tallest ink ends by row `(i + 1) * slot`,
/// so lines never overlap and a blank line keeps its slot empty.
pub proof fn lemma_lines_stay_in_their_slots(print_height: int, lines: int, ink_height: int, i: int)
    requires
        lines > 0,
        ink_height >= 0,
        ink_height * lines <= print_height,
        0 <= i < lines,
    ensures
        i * (print_height / lines) <= line_top(i, print_height, lines, ink_height),
        line_top(i, print_height, lines, ink_height) + ink_height <= (i + 1) * (print_height
            / lines),
{
    let slot = print_height / lines;
    let unused = print_height - ink_height * lines;
    assert(unused / lines == slot - ink_height) by (nonlinear_arith)
        requires
            lines > 0,
            slot == print_height / lines,
            unused == print_height - ink_height * lines,
    ;
    assert(slot >= ink_height) by (nonlinear_arith)
        requires
            lines > 0,
            slot == print_height / lines,
            ink_height * lines <= print_height,
            ink_height >= 0,
    ;
    assert((i + 1) * slot == i * slot + slot) by (nonlinear_arith);
}

/// A smaller `scale_percent` never gives a larger common scale.
pub proof fn lemma_scale_percent_monotone(best: Seq<u32>, smaller: u8, larger: u8)
    requires
        smaller <= larger,
        forall|i: int| 0 <= i < best.len() ==> #[trigger] best[i] <= MAX_SCALE,
    ensures
        common_scale(best, smaller) <= common_scale(best, larger),
{
    let base = if best.len() == 0 {
        MIN_SCALE as int
    } else {
        lemma_min_scale_bound(best);
        min_scale(best) as int
    };
    assert(base * smaller / 100 <= base * larger / 100) by (nonlinear_arith)
        requires
            smaller <= larger,
            base >= 0,
    ;
    assert(base * larger / 100 <= 512 * 255) by (nonlinear_arith)
        requires
            larger <= 255,
            0 <= base <= 512,
    ;
}

proof fn lemma_min_scale_bound(best: Seq<u32>)
    requires
        best.len() > 0,
        forall|i: int| 0 <= i < best.len() ==> #[trigger] best[i] <= MAX_SCALE,
    ensures
        min_scale(best) <= MAX_SCALE,
    decreases best.len(),
{
    if best.len() > 1 {
        assert forall|i: int| 0 <= i < best.drop_last().len() implies #[trigger] best.drop_last()[i] <= MAX_SCALE by {
            assert(best.drop_last()[i] == best[i]);
        }
        lemma_min_scale_bound(best.drop_last());
    }
    assert(best.last() <= MAX_SCALE);
}

/// At 100% the common scale is the smallest best scale itself (never below
/// `MIN_SCALE`).
pub proof fn lemma_full_scale_keeps_size(best: Seq<u32>)
    ensures
        common_scale(best, 100) == if best.len() == 0 || min_scale(best) < MIN_SCALE {
            MIN_SCALE
        } else {
            min_scale(best)
        },
{
}

/// The smallest scale is at most every scale and is one of them.
pub proof fn lemma_min_scale_is_smallest(scales: Seq<u32>)
    requires
        scales.len() > 0,
    ensures
        forall|i: int| 0 <= i < scales.len() ==> min_scale(scales) <= #[trigger] scales[i],
        exists|i: int| 0 <= i < scales.len() && min_scale(scales) == #[trigger] scales[i],
    decreases scales.len(),
{
    if scales.len() == 1 {
        assert(scales.drop_last().len() == 0);
        assert(min_scale(scales.drop_last()) == u32::MAX);
        assert(scales.last() == scales[0]);
        assert(min_scale(scales) == scales[0]);
    } else {
        let rest = scales.drop_last();
        lemma_min_scale_is_smallest(rest);
        assert forall|i: int| 0 <= i < scales.len() implies min_scale(scales) <= #[trigger] scales[i] by {
            if i < scales.len() - 1 {
                assert(rest[i] == scales[i]);
            }
        }
        if scales.last() < min_scale(rest) {
            assert(min_scale(scales) == scales[scales.len() - 1]);
        } else {
            let j = choose|j: int| 0 <= j < rest.len() && min_scale(rest) == #[trigger] rest[j];
            assert(min_scale(scales) == scales[j]);
        }
    }
}

/// The whole label is set at the scale of its tightest line: at full size
/// the common scale is the best scale of some line and no line's best scale
/// is smaller, so every line fits its slot; shrinking keeps it at most that.
pub proof fn lemma_label_scale_fits_every_line(best: Seq<u32>, scale_percent: u8)
    requires
        best.len() > 0,
        forall|i: int| 0 <= i < best.len() ==> MIN_SCALE <= #[trigger] best[i] <= MAX_SCALE,
        scale_percent <= 100,
    ensures
        forall|i: int| 0 <= i < best.len() ==> common_scale(best, 100) <= #[trigger] best[i],
        exists|i: int| 0 <= i < best.len() && common_scale(best, 100) == #[trigger] best[i],
        forall|i: int| 0 <= i < best.len() ==> common_scale(best, scale_percent) <= #[trigger] best[i],
{
    lemma_min_scale_is_smallest(best);
    let j = choose|j: int| 0 <= j < best.len() && min_scale(best) == #[trigger] best[j];
    assert(min_scale(best) >= MIN_SCALE);
    assert(common_scale(best, 100) == min_scale(best));
    assert(common_scale(best, 100) == best[j]);
    lemma_scale_percent_monotone(best, scale_percent, 100);
}

/// A margin beyond the printer's 2mm is fed as that many millimetres at 180
/// dpi, rounded to the nearest column: the columns, times 25.4mm / 180, are
/// within half a column of the extra millimetres.
pub proof fn lemma_margin_rounds_to_nearest_column(margin_mm: u8)
    requires
        margin_mm > 2,
    ensures
        -127 < margin_px(margin_mm) * 254 - (margin_mm - 2) * 1800 <= 127,
{
    let x: int = (margin_mm - 2) * 1800;
    let r: int = (x + 127) / 254;
    assert(r == margin_px(margin_mm));
    assert(r * 254 <= x + 127 && x + 127 < r * 254 + 254) by (nonlinear_arith)
        requires
            r == (x + 127) / 254,
            x >= 0,
    ;
}

/// A wider margin never feeds less: above the 2mm minimum every extra
/// millimetre adds columns.
pub proof fn lemma_margin_grows(smaller: u8, larger: u8)
    requires
        2 <= smaller < larger,
    ensures
        margin_px(smaller) < margin_px(larger),
{
    lemma_margin_rounds_to_nearest_column(larger);
    if smaller > 2 {
        lemma_margin_rounds_to_nearest_column(smaller);
    }
}

} // verus!
