//! Pixels of a rendered page: which strokes show, in what colour, and where the ink is.

use vstd::prelude::*;

use crate::text;

verus! {

/// The width of the tablet's canvas in pixels.
pub const RM_CANVAS_W: u32 = 1404;

/// The height of the tablet's canvas in pixels.
pub const RM_CANVAS_H: u32 = 1872;

/// Pages are drawn at this multiple of the canvas and then scaled down.
pub const RENDER_SCALE: u32 = 2;

/// The long edge of a page as the model sees it.
pub const TARGET_LONG_EDGE: u32 = 1280;

/// Pixels to keep around the ink.
pub const INK_BBOX_MARGIN: u32 = 120;

/// A pixel darker than this is ink.
pub const INK_BRIGHTNESS_THRESHOLD: u8 = 230;

/// A pen or another tool of the tablet.
#[derive(Debug, Clone, Copy, PartialEq, Eq, Structural)]
pub enum Tool {
    BallPoint,
    FineLiner,
    Marker,
    Brush,
    Pencil,
    MechanicalPencil,
    Calligraphy,
    Highlighter,
    Eraser,
    EraseArea,
    EraseAll,
    SelectionBrush,
    /// Any other tool.
    Unknown,
}

/// Why a page could not be drawn.
#[derive(Debug)]
pub enum RenderError {
    /// The strokes could not be read.
    Parse(String),
    /// The picture could not be encoded.
    Encode(String),
    /// Reading or writing failed.
    Io(String),
}

impl RenderError {
    /// What the error says to the user.
    pub fn message(&self) -> (s: String)
        ensures
            s@ == (match *self {
                RenderError::Parse(m) => "parse: "@ + m@,
                RenderError::Encode(m) => "encode: "@ + m@,
                RenderError::Io(m) => "io: "@ + m@,
            }),
    {
        match self {
            RenderError::Parse(m) => text::concat2("parse: ", m.as_str()),
            RenderError::Encode(m) => text::concat2("encode: ", m.as_str()),
            RenderError::Io(m) => text::concat2("io: ", m.as_str()),
        }
    }
}

/// A colour: red, green, blue and opacity.
#[derive(Debug, Clone, Copy, PartialEq, Eq, Structural)]
pub struct Colour {
    pub r: u8,
    pub g: u8,
    pub b: u8,
    pub a: u8,
}

/// The colour of an empty page.
pub fn white() -> (c: Colour)
    ensures
        c == (Colour { r: 0xff, g: 0xff, b: 0xff, a: 0xff }),
{
    Colour { r: 0xff, g: 0xff, b: 0xff, a: 0xff }
}

/// Whether strokes of a tool show on the page: those of erasers and of the selection brush do
/// not.
pub fn is_visible_tool(tool: Tool) -> (r: bool)
    ensures
        r == !(tool is Eraser || tool is EraseArea || tool is EraseAll || tool is SelectionBrush),
{
    match tool {
        Tool::Eraser | Tool::EraseArea | Tool::EraseAll | Tool::SelectionBrush => false,
        _ => true,
    }
}

/// The colour of a tool's strokes: translucent yellow for the highlighter, grey for pencils,
/// black for all others.
pub fn stroke_colour(tool: Tool) -> (c: Colour)
    ensures
        c == (if tool is Highlighter {
            Colour { r: 0xff, g: 0xea, b: 0x4a, a: 0x80 }
        } else if tool is Pencil || tool is MechanicalPencil {
            Colour { r: 0x66, g: 0x66, b: 0x66, a: 0xff }
        } else {
            Colour { r: 0x00, g: 0x00, b: 0x00, a: 0xff }
        }),
{
    match tool {
        Tool::Highlighter => Colour { r: 0xff, g: 0xea, b: 0x4a, a: 0x80 },
        Tool::Pencil | Tool::MechanicalPencil => Colour { r: 0x66, g: 0x66, b: 0x66, a: 0xff },
        _ => Colour { r: 0x00, g: 0x00, b: 0x00, a: 0xff },
    }
}

/// Whether a stroke is drawn: it needs a tool that shows, and two points at least.
pub fn is_drawn(tool: Tool, points: usize) -> (r: bool)
    ensures
        r == (points >= 2 && !(tool is Eraser || tool is EraseArea || tool is EraseAll
            || tool is SelectionBrush)),
{
    is_visible_tool(tool) && points >= 2
}

/// A picture: rows of pixels from top to bottom, four bytes to a pixel.
#[derive(Debug)]
pub struct Bitmap {
    pub width: u32,
    pub height: u32,
    pub data: Vec<u8>,
}

/// The place of a pixel in the data.
pub open spec fn pixel_offset(width: int, x: int, y: int) -> int {
    (y * width + x) * 4
}

/// Whether the pixel at `x`, `y` is ink: its brightness, the mean of its colours, is below the
/// threshold.
pub open spec fn is_ink(data: Seq<u8>, width: int, x: int, y: int) -> bool {
    let at = pixel_offset(width, x, y);
    (data[at] as int + data[at + 1] as int + data[at + 2] as int) / 3 < INK_BRIGHTNESS_THRESHOLD
}

/// The bytes of the part of a picture that starts at `x`, `y` and is `w` pixels wide and `h`
/// pixels high.
pub open spec fn cut_out(data: Seq<u8>, width: int, x: int, y: int, w: int, h: int) -> Seq<u8> {
    Seq::new(
        (w * h * 4) as nat,
        |i: int| data[pixel_offset(width, x, y + i / (w * 4)) + i % (w * 4)],
    )
}

/// Calls `image::imageops::crop_imm` on a picture, and copies the part out: its rows are the
/// parts of the picture's rows that lie inside it.
#[verifier::external_body]
fn crop_rgba(width: u32, height: u32, data: &Vec<u8>, x: u32, y: u32, w: u32, h: u32) -> (out: Vec<u8>)
    requires
        data@.len() == width * height * 4,
        0 < w,
        0 < h,
        x + w <= width,
        y + h <= height,
    ensures
        out@ == cut_out(data@, width as int, x as int, y as int, w as int, h as int),
{
    let img = image::RgbaImage::from_raw(width, height, data.clone()).unwrap_or_default();
    image::imageops::crop_imm(&img, x, y, w, h).to_image().into_raw()
}

/// The PNG file of a picture; or why there is none.
pub uninterp spec fn png_file(width: u32, height: u32, data: Seq<u8>) -> Result<Seq<u8>, Seq<char>>;

/// Calls `image::ImageBuffer::write_to` with `image::ImageFormat::Png`. The bytes of the file,
/// and the message of an error, are left to the name `png_file`.
#[verifier::external_body]
fn write_png(width: u32, height: u32, data: &Vec<u8>) -> (r: Result<Vec<u8>, String>)
    requires
        data@.len() == width * height * 4,
    ensures
        match r {
            Ok(bytes) => png_file(width, height, data@) == Ok::<Seq<u8>, Seq<char>>(bytes@),
            Err(m) => png_file(width, height, data@) == Err::<Seq<u8>, Seq<char>>(m@),
        },
{
    let img = image::RgbaImage::from_raw(width, height, data.clone()).unwrap_or_default();
    let mut out = std::io::Cursor::new(Vec::new());
    match img.write_to(&mut out, image::ImageFormat::Png) {
        Ok(()) => Ok(out.into_inner()),
        Err(e) => Err(e.to_string()),
    }
}

/// A rectangle of pixels, given by its first and last column and row.
#[derive(Clone, Copy)]
pub struct InkBox {
    pub min_x: u32,
    pub max_x: u32,
    pub min_y: u32,
    pub max_y: u32,
}

impl Bitmap {
    /// Whether there are four bytes for every pixel.
    pub open spec fn wf(&self) -> bool {
        self.data@.len() == self.width * self.height * 4
    }

    /// Whether the pixel at `x`, `y` is ink.
    pub open spec fn ink_at(&self, x: int, y: int) -> bool {
        is_ink(self.data@, self.width as int, x, y)
    }
}

/// Whether a rectangle is the smallest that holds all the ink of a picture.
pub open spec fn is_ink_box(img: Bitmap, b: InkBox) -> bool {
    &&& forall|x: int, y: int|
        0 <= x < img.width && 0 <= y < img.height && #[trigger] img.ink_at(x, y) ==> b.min_x <= x
            <= b.max_x && b.min_y <= y <= b.max_y
    &&& touches_ink(&img, b)
}

/// Whether the pixel at `x`, `y` comes before the one at `to_x`, `to_y`, row by row.
spec fn comes_before(x: int, y: int, to_x: int, to_y: int) -> bool {
    y < to_y || (y == to_y && x < to_x)
}

/// Whether the ink that comes before `to_x`, `to_y` lies in the rectangle.
spec fn holds_ink(img: &Bitmap, b: InkBox, to_x: int, to_y: int) -> bool {
    forall|x: int, y: int|
        0 <= x < img.width && 0 <= y < img.height && comes_before(x, y, to_x, to_y)
            && #[trigger] img.ink_at(x, y) ==> b.min_x <= x <= b.max_x && b.min_y <= y <= b.max_y
}

/// Whether each side of the rectangle touches ink.
pub open spec fn touches_ink(img: &Bitmap, b: InkBox) -> bool {
    &&& exists|y: int| 0 <= y < img.height && #[trigger] img.ink_at(b.min_x as int, y)
    &&& exists|y: int| 0 <= y < img.height && #[trigger] img.ink_at(b.max_x as int, y)
    &&& exists|x: int| 0 <= x < img.width && #[trigger] img.ink_at(x, b.min_y as int)
    &&& exists|x: int| 0 <= x < img.width && #[trigger] img.ink_at(x, b.max_y as int)
    &&& b.min_x <= b.max_x < img.width
    &&& b.min_y <= b.max_y < img.height
}

proof fn lemma_pixel_in_data(width: int, height: int, x: int, y: int)
    by (nonlinear_arith)
    requires
        0 <= x < width,
        0 <= y < height,
    ensures
        0 <= y * width,
        0 <= y * width + x,
        (y * width + x) * 4 + 4 <= width * height * 4,
{
}

impl Bitmap {
    /// Whether the pixel at `x`, `y` is ink.
    fn has_ink(&self, x: u32, y: u32) -> (r: bool)
        requires
            self.wf(),
            x < self.width,
            y < self.height,
        ensures
            r == self.ink_at(x as int, y as int),
    {
        proof {
            lemma_pixel_in_data(self.width as int, self.height as int, x as int, y as int);
        }
        let len: usize = self.data.len();
        assert((y * self.width + x) * 4 + 4 <= len);
        let at: usize = (y as usize * self.width as usize + x as usize) * 4;
        let sum: u16 = self.data[at] as u16 + self.data[at + 1] as u16 + self.data[at + 2] as u16;
        sum / 3 < INK_BRIGHTNESS_THRESHOLD as u16
    }

    /// Encodes the picture as a PNG file.
    pub fn encode_png(&self) -> (r: Result<Vec<u8>, RenderError>)
        requires
            self.wf(),
        ensures
            match r {
                Ok(bytes) => png_file(self.width, self.height, self.data@) == Ok::<
                    Seq<u8>,
                    Seq<char>,
                >(bytes@),
                Err(e) => e matches RenderError::Encode(m) && png_file(
                    self.width,
                    self.height,
                    self.data@,
                ) == Err::<Seq<u8>, Seq<char>>(m@),
            },
    {
        match write_png(self.width, self.height, &self.data) {
            Ok(bytes) => Ok(bytes),
            Err(m) => Err(RenderError::Encode(m)),
        }
    }

    /// Finds the smallest rectangle that holds all the ink. `None` for a blank page.
    pub fn ink_box(&self) -> (r: Option<InkBox>)
        requires
            self.wf(),
        ensures
            match r {
                Some(b) => is_ink_box(*self, b),
                None => forall|x: int, y: int|
                    0 <= x < self.width && 0 <= y < self.height ==> !#[trigger] self.ink_at(x, y),
            },
    {
        let mut b = InkBox { min_x: u32::MAX, max_x: 0, min_y: u32::MAX, max_y: 0 };
        let mut found = false;
        let mut y: u32 = 0;
        while y < self.height
            invariant
                self.wf(),
                y <= self.height,
                holds_ink(self, b, 0, y as int),
                found ==> touches_ink(self, b),
                !found ==> b.min_x > b.max_x && b.min_x == u32::MAX && b.min_y == u32::MAX
                    && b.max_x == 0 && b.max_y == 0,
            decreases self.height - y,
        {
            let mut x: u32 = 0;
            while x < self.width
                invariant
                    self.wf(),
                    y < self.height,
                    x <= self.width,
                    holds_ink(self, b, x as int, y as int),
                    found ==> touches_ink(self, b),
                    !found ==> b.min_x > b.max_x && b.min_x == u32::MAX && b.min_y == u32::MAX
                        && b.max_x == 0 && b.max_y == 0,
                decreases self.width - x,
            {
                if self.has_ink(x, y) {
                    let ghost before = b;
                    if x < b.min_x {
                        b.min_x = x;
                    }
                    if y < b.min_y {
                        b.min_y = y;
                    }
                    if x > b.max_x {
                        b.max_x = x;
                    }
                    if y > b.max_y {
                        b.max_y = y;
                    }
                    proof {
                        assert(self.ink_at(x as int, y as int));
                        if b.min_x != x {
                            assert(b.min_x == before.min_x && found);
                        }
                        if b.max_x != x {
                            assert(b.max_x == before.max_x && found);
                        }
                        if b.min_y != y {
                            assert(b.min_y == before.min_y && found);
                        }
                        if b.max_y != y {
                            assert(b.max_y == before.max_y && found);
                        }
                        assert(exists|v: int|
                            0 <= v < self.height && #[trigger] self.ink_at(b.min_x as int, v));
                        assert(exists|v: int|
                            0 <= v < self.height && #[trigger] self.ink_at(b.max_x as int, v));
                        assert(exists|u: int|
                            0 <= u < self.width && #[trigger] self.ink_at(u, b.min_y as int));
                        assert(exists|u: int|
                            0 <= u < self.width && #[trigger] self.ink_at(u, b.max_y as int));
                    }
                    found = true;
                }
                x = x + 1;
            }
            y = y + 1;
        }
        if !found {
            None
        } else {
            Some(b)
        }
    }

    /// Cuts the picture to its ink, with a margin on each side as far as the picture goes.
    /// `None` for a blank page.
    pub fn crop_to_ink_bbox(&self, margin: u32) -> (r: Option<Bitmap>)
        requires
            self.wf(),
        ensures
            match r {
                Some(out) => exists|b: InkBox| #[trigger]
                    is_ink_box(*self, b) && is_cropped(*self, b, margin, out),
                None => forall|x: int, y: int|
                    0 <= x < self.width && 0 <= y < self.height ==> !#[trigger] self.ink_at(x, y),
            },
            r matches Some(out) ==> out.wf(),
    {
        let b = match self.ink_box() {
            Some(b) => b,
            None => {
                return None;
            },
        };
        let left: u32 = if b.min_x > margin {
            b.min_x - margin
        } else {
            0
        };
        let top: u32 = if b.min_y > margin {
            b.min_y - margin
        } else {
            0
        };
        let right: u32 = if margin < self.width - b.max_x {
            b.max_x + margin + 1
        } else {
            self.width
        };
        let bottom: u32 = if margin < self.height - b.max_y {
            b.max_y + margin + 1
        } else {
            self.height
        };
        let data = crop_rgba(
            self.width,
            self.height,
            &self.data,
            left,
            top,
            right - left,
            bottom - top,
        );
        let out = Bitmap { width: right - left, height: bottom - top, data };
        proof {
            let w = (right - left) as int;
            let h = (bottom - top) as int;
            assert(w * h * 4 >= 0) by (nonlinear_arith)
                requires
                    w >= 0,
                    h >= 0,
            ;
            assert(is_ink_box(*self, b) && is_cropped(*self, b, margin, out));
        }
        Some(out)
    }
}

/// The first column or row that is kept before `min`.
pub open spec fn crop_start(min: u32, margin: u32) -> int {
    if min > margin {
        min - margin
    } else {
        0
    }
}

/// The first column or row that is dropped after `max`, out of `size`.
pub open spec fn crop_end(max: u32, margin: u32, size: u32) -> int {
    if max + margin + 1 < size {
        max + margin + 1
    } else {
        size as int
    }
}

/// Whether a picture is the part of another that holds the rectangle, and so many pixels around
/// it as far as there are any.
pub open spec fn is_cropped(img: Bitmap, b: InkBox, margin: u32, out: Bitmap) -> bool {
    let left = crop_start(b.min_x, margin);
    let top = crop_start(b.min_y, margin);
    &&& out.width == crop_end(b.max_x, margin, img.width) - left
    &&& out.height == crop_end(b.max_y, margin, img.height) - top
    &&& out.data@ == cut_out(
        img.data@,
        img.width as int,
        left,
        top,
        out.width as int,
        out.height as int,
    )
}

proof fn lemma_cut_out_byte(
    data: Seq<u8>,
    width: int,
    left: int,
    top: int,
    w: int,
    h: int,
    x: int,
    y: int,
    k: int,
)
    requires
        0 <= x < w,
        0 <= y < h,
        0 <= k < 4,
    ensures
        cut_out(data, width, left, top, w, h)[pixel_offset(w, x, y) + k] == data[pixel_offset(
            width,
            left + x,
            top + y,
        ) + k],
{
    let i = pixel_offset(w, x, y) + k;
    assert(i == y * (w * 4) + (x * 4 + k)) by (nonlinear_arith)
        requires
            i == (y * w + x) * 4 + k,
    ;
    vstd::arithmetic::div_mod::lemma_fundamental_div_mod_converse(i, w * 4, y, x * 4 + k);
    lemma_pixel_in_data(w, h, x, y);
    assert((y * w + x) * 4 + k < w * h * 4);
    assert(pixel_offset(width, left, top + y) + (x * 4 + k) == pixel_offset(
        width,
        left + x,
        top + y,
    ) + k);
}

/// Cropping loses no ink: whatever is ink in a picture is ink in its crop, at the same place
/// counted from the corner of the crop.
pub proof fn crop_keeps_ink(img: Bitmap, b: InkBox, margin: u32, out: Bitmap, x: int, y: int)
    requires
        is_ink_box(img, b),
        is_cropped(img, b, margin, out),
        0 <= x < img.width,
        0 <= y < img.height,
        img.ink_at(x, y),
    ensures
        crop_start(b.min_x, margin) <= x < crop_start(b.min_x, margin) + out.width,
        crop_start(b.min_y, margin) <= y < crop_start(b.min_y, margin) + out.height,
        out.ink_at(x - crop_start(b.min_x, margin), y - crop_start(b.min_y, margin)),
{
    let left = crop_start(b.min_x, margin);
    let top = crop_start(b.min_y, margin);
    let w = out.width as int;
    let h = out.height as int;
    lemma_cut_out_byte(img.data@, img.width as int, left, top, w, h, x - left, y - top, 0);
    lemma_cut_out_byte(img.data@, img.width as int, left, top, w, h, x - left, y - top, 1);
    lemma_cut_out_byte(img.data@, img.width as int, left, top, w, h, x - left, y - top, 2);
}

/// The pixels of a picture lie one behind the other, row by row, four bytes to a pixel.
pub proof fn pixels_lie_row_by_row(width: int, x: int, y: int)
    ensures
        pixel_offset(width, 0, 0) == 0,
        pixel_offset(width, x + 1, y) == pixel_offset(width, x, y) + 4,
        pixel_offset(width, x, y + 1) == pixel_offset(width, x, y) + 4 * width,
{
    assert((y + 1) * width == y * width + width) by (nonlinear_arith);
}

/// A pixel is ink exactly if its colours together are darker than three times the threshold.
pub proof fn ink_is_dark(data: Seq<u8>, width: int, x: int, y: int)
    ensures
        ({
            let at = pixel_offset(width, x, y);
            is_ink(data, width, x, y) <==> data[at] + data[at + 1] + data[at + 2] < 3 * 230
        }),
{
}

/// A crop keeps the margin on each side of the ink, and no more; where the picture ends before
/// that, it keeps the picture to its end.
pub proof fn crop_keeps_the_margin(min: u32, max: u32, margin: u32, size: u32)
    requires
        min <= max < size,
    ensures
        0 <= crop_start(min, margin) <= min,
        crop_start(min, margin) == min - margin || (crop_start(min, margin) == 0 && min < margin),
        max < crop_end(max, margin, size) <= size,
        crop_end(max, margin, size) == max + margin + 1 || (crop_end(max, margin, size) == size
            && size < max + margin + 1),
{
}

} // verus!
