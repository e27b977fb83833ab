//! Pictures in colour as they are decoded from a frame: cutting a region
//! out and drawing the outline of a rectangle.

use vstd::prelude::*;

verus! {

/// The most pixels a frame or a mask can hold: with so many, three bytes a
/// pixel and the weight of all pixels can still be counted in 64 bits.
pub const MAX_PIXELS: u64 = 0x1000_0000_0000_0000;

/// The bytes of the first `rows` rows of the region of an image that is
/// `width` pixels wide and starts at column `x` of row `y`; the image is
/// `image_width` pixels wide and `data` holds its pixels row by row, three
/// bytes each.
pub open spec fn region_rows(
    data: Seq<u8>,
    image_width: int,
    x: int,
    y: int,
    width: int,
    rows: int,
) -> Seq<u8>
    decreases rows,
{
    if rows <= 0 {
        Seq::empty()
    } else {
        region_rows(data, image_width, x, y, width, rows - 1) + data.subrange(
            3 * ((y + rows - 1) * image_width + x),
            3 * ((y + rows - 1) * image_width + x + width),
        )
    }
}

/// Rows of `width` pixels take three bytes a pixel.
pub proof fn lemma_region_rows_len(
    data: Seq<u8>,
    image_width: int,
    image_height: int,
    x: int,
    y: int,
    width: int,
    rows: int,
)
    requires
        data.len() == 3 * image_width * image_height,
        0 <= x,
        0 <= y,
        0 <= width,
        0 <= rows,
        x + width <= image_width,
        y + rows <= image_height,
    ensures
        region_rows(data, image_width, x, y, width, rows).len() == 3 * width * rows,
    decreases rows,
{
    if rows > 0 {
        lemma_region_rows_len(data, image_width, image_height, x, y, width, rows - 1);
        lemma_row_in_image(image_width, image_height, x, y + rows - 1, width);
        assert(3 * width * (rows - 1) + 3 * width == 3 * width * rows) by (nonlinear_arith);
        let start = 3 * ((y + rows - 1) * image_width + x);
        let end = 3 * ((y + rows - 1) * image_width + x + width);
        let above = region_rows(data, image_width, x, y, width, rows - 1);
        assert(region_rows(data, image_width, x, y, width, rows) == above + data.subrange(
            start,
            end,
        ));
        assert(data.subrange(start, end).len() == 3 * width);
        assert(above.len() == 3 * width * (rows - 1));
    } else {
        assert(3 * width * rows == 0) by (nonlinear_arith)
            requires
                rows == 0,
        ;
    }
}

/// A stretch of a row of an image lies within the image's pixels.
pub proof fn lemma_row_in_image(image_width: int, image_height: int, x: int, row: int, width: int)
    requires
        0 <= x,
        0 <= width,
        x + width <= image_width,
        0 <= row < image_height,
    ensures
        0 <= 3 * (row * image_width + x) <= 3 * (row * image_width + x + width) <= 3 * image_width
            * image_height,
{
    assert(row * image_width + image_width <= image_height * image_width && 0 <= row
        * image_width) by (nonlinear_arith)
        requires
            0 <= row < image_height,
            0 <= image_width,
    ;
    assert(3 * image_width * image_height == 3 * (image_height * image_width))
        by (nonlinear_arith);
}

/// A picture in colour: three bytes a pixel, red, green and blue, row by
/// row from the top.
pub struct RgbFrame {
    width: u32,
    height: u32,
    data: Vec<u8>,
}

impl RgbFrame {
    /// How many pixels wide the picture is.
    pub closed spec fn spec_width(&self) -> u32 {
        self.width
    }

    /// How many pixels high the picture is.
    pub closed spec fn spec_height(&self) -> u32 {
        self.height
    }

    /// The bytes of the pixels.
    pub closed spec fn view(&self) -> Seq<u8> {
        self.data@
    }

    /// What holds of every picture: it has three bytes for each pixel, and
    /// no more than `MAX_PIXELS` pixels.
    #[verifier::type_invariant]
    pub open spec fn wf(&self) -> bool {
        &&& self@.len() == 3 * self.spec_width() * self.spec_height()
        &&& self.spec_width() * self.spec_height() <= MAX_PIXELS
    }

    /// The picture of the given size whose pixels are the first bytes of
    /// `data`; `None` where `data` is too short for the size or the size
    /// is more than `MAX_PIXELS` pixels.
    pub fn new(width: u32, height: u32, data: Vec<u8>) -> (r: Option<RgbFrame>)
        ensures
            r is Some <==> width * height <= MAX_PIXELS && 3 * width * height <= data@.len(),
            r matches Some(frame) ==> frame.wf() && frame.spec_width() == width
                && frame.spec_height() == height && frame@ == data@.take(3 * width * height),
    {
        assert(width * height <= 0xffff_ffff * 0xffff_ffff) by (nonlinear_arith)
            requires
                width <= 0xffff_ffff,
                height <= 0xffff_ffff,
        ;
        let pixels: u64 = (width as u64) * (height as u64);
        if pixels > MAX_PIXELS {
            return None;
        }
        let bytes: u64 = 3 * pixels;
        assert(3 * width * height == 3 * (width * height)) by (nonlinear_arith);
        if (data.len() as u64) < bytes {
            return None;
        }
        let mut data = data;
        data.truncate(bytes as usize);
        Some(RgbFrame { width, height, data })
    }

    /// How many pixels wide the picture is.
    pub fn width(&self) -> (r: u32)
        ensures
            r == self.spec_width(),
    {
        self.width
    }

    /// How many pixels high the picture is.
    pub fn height(&self) -> (r: u32)
        ensures
            r == self.spec_height(),
    {
        self.height
    }

    /// The bytes of the pixels: three a pixel, row by row from the top.
    pub fn data(&self) -> (r: &Vec<u8>)
        ensures
            r@ == self@,
    {
        &self.data
    }

    /// Cuts the region of the given size out whose top left corner lies at
    /// column `x` of row `y`. The region has to lie within the picture.
    pub fn crop(&self, x: u32, y: u32, width: u32, height: u32) -> (r: RgbFrame)
        requires
            x + width <= self.spec_width(),
            y + height <= self.spec_height(),
        ensures
            r.wf(),
            r.spec_width() == width,
            r.spec_height() == height,
            r@ == region_rows(
                self@,
                self.spec_width() as int,
                x as int,
                y as int,
                width as int,
                height as int,
            ),
    {
        proof {
            use_type_invariant(self);
        }
        let ghost image_width = self.width as int;
        let ghost image_height = self.height as int;
        let mut out: Vec<u8> = Vec::new();
        let mut row: u32 = 0;
        proof {
            assert(self@.len() == self.data.len());
        }
        while row < height
            invariant
                row <= height,
                self.wf(),
                self@.len() <= usize::MAX,
                image_width == self.spec_width(),
                image_height == self.spec_height(),
                x + width <= image_width,
                y + height <= image_height,
                out@ == region_rows(self@, image_width, x as int, y as int, width as int, row as int),
            decreases height - row,
        {
            proof {
                lemma_row_in_image(image_width, image_height, x as int, y + row, width as int);
                assert(3 * image_width * image_height == self@.len());
                assert(0 <= (y + row) * image_width) by (nonlinear_arith)
                    requires
                        0 <= y + row,
                        0 <= image_width,
                ;
            }
            let line: usize = (y + row) as usize;
            assert(line * self.width + x + width <= self@.len()) by (nonlinear_arith)
                requires
                    3 * (line * image_width + x + width) <= self@.len(),
                    image_width == self.width,
                    0 <= line * image_width + x + width,
            ;
            assert(0 <= line * self.width) by (nonlinear_arith);
            let first: usize = line * (self.width as usize) + (x as usize);
            let start: usize = 3 * first;
            let end: usize = start + 3 * (width as usize);
            let ghost before = out@;
            let mut at: usize = start;
            while at < end
                invariant
                    start <= at <= end <= self@.len(),
                    out@ == before + self@.subrange(start as int, at as int),
                decreases end - at,
            {
                out.push(self.data[at]);
                proof {
                    assert(self@.subrange(start as int, at + 1) =~= self@.subrange(
                        start as int,
                        at as int,
                    ).push(self@[at as int]));
                    assert(before + self@.subrange(start as int, at as int).push(self@[at as int])
                        =~= (before + self@.subrange(start as int, at as int)).push(
                        self@[at as int],
                    ));
                }
                at = at + 1;
            }
            row = row + 1;
        }
        proof {
            lemma_region_rows_len(
                self@,
                image_width,
                image_height,
                x as int,
                y as int,
                width as int,
                height as int,
            );
            assert(width * height <= image_width * image_height) by (nonlinear_arith)
                requires
                    0 <= width <= image_width,
                    0 <= height <= image_height,
            ;
        }
        RgbFrame { width, height, data: out }
    }
}

/// A rectangle of pixels on a picture.
#[derive(Clone, Copy, Debug, PartialEq, Eq, Structural)]
pub struct Rect {
    /// The column of its left edge.
    pub x: u32,
    /// The row of its upper edge.
    pub y: u32,
    /// How many pixels wide it is.
    pub width: u32,
    /// How many pixels high it is.
    pub height: u32,
}

/// The place `v`, or `last` where `v` lies past it.
pub open spec fn at_most(v: int, last: int) -> int {
    if v > last {
        last
    } else {
        v
    }
}

impl Rect {
    /// Whether the pixel at column `px` of row `py` lies on the outline of
    /// the rectangle as it is drawn on a picture of `w` by `h` pixels: an
    /// edge that lies past the picture is drawn in its last column or row,
    /// and a rectangle or a picture without pixels has no outline.
    pub open spec fn on_outline(self, px: int, py: int, w: int, h: int) -> bool {
        let x0 = at_most(self.x as int, w - 1);
        let y0 = at_most(self.y as int, h - 1);
        let x1 = at_most(self.x + self.width - 1, w - 1);
        let y1 = at_most(self.y + self.height - 1, h - 1);
        &&& w > 0 && h > 0 && self.width > 0 && self.height > 0
        &&& x0 <= px <= x1 && y0 <= py <= y1
        &&& (px == x0 || px == x1 || py == y0 || py == y1)
    }
}

/// The bytes of the first `cols` pixels of row `py` of a picture on which
/// the outline of `rect` has been drawn in `color`.
pub open spec fn outlined_pixels(
    data: Seq<u8>,
    w: int,
    h: int,
    rect: Rect,
    color: (u8, u8, u8),
    py: int,
    cols: int,
) -> Seq<u8>
    decreases cols,
{
    if cols <= 0 {
        Seq::empty()
    } else {
        outlined_pixels(data, w, h, rect, color, py, cols - 1) + (if rect.on_outline(
            cols - 1,
            py,
            w,
            h,
        ) {
            seq![color.0, color.1, color.2]
        } else {
            data.subrange(3 * (py * w + cols - 1), 3 * (py * w + cols - 1) + 3)
        })
    }
}

/// The bytes of the first `rows` rows of a picture on which the outline of
/// `rect` has been drawn in `color`.
pub open spec fn outlined(
    data: Seq<u8>,
    w: int,
    h: int,
    rect: Rect,
    color: (u8, u8, u8),
    rows: int,
) -> Seq<u8>
    decreases rows,
{
    if rows <= 0 {
        Seq::empty()
    } else {
        outlined(data, w, h, rect, color, rows - 1) + outlined_pixels(
            data,
            w,
            h,
            rect,
            color,
            rows - 1,
            w,
        )
    }
}

/// Drawing an outline leaves a row as long as it was.
pub proof fn lemma_outlined_pixels_len(
    data: Seq<u8>,
    w: int,
    h: int,
    rect: Rect,
    color: (u8, u8, u8),
    py: int,
    cols: int,
)
    requires
        data.len() == 3 * w * h,
        0 <= py < h,
        0 <= cols <= w,
    ensures
        outlined_pixels(data, w, h, rect, color, py, cols).len() == 3 * cols,
    decreases cols,
{
    if cols > 0 {
        lemma_outlined_pixels_len(data, w, h, rect, color, py, cols - 1);
        lemma_row_in_image(w, h, cols - 1, py, 1);
    }
}

/// Drawing an outline leaves a picture as large as it was.
pub proof fn lemma_outlined_len(
    data: Seq<u8>,
    w: int,
    h: int,
    rect: Rect,
    color: (u8, u8, u8),
    rows: int,
)
    requires
        data.len() == 3 * w * h,
        0 <= w,
        0 <= rows <= h,
    ensures
        outlined(data, w, h, rect, color, rows).len() == 3 * w * rows,
    decreases rows,
{
    if rows > 0 {
        lemma_outlined_len(data, w, h, rect, color, rows - 1);
        lemma_outlined_pixels_len(data, w, h, rect, color, rows - 1, w);
        assert(3 * w * (rows - 1) + 3 * w == 3 * w * rows) by (nonlinear_arith);
    } else {
        assert(3 * w * rows == 0) by (nonlinear_arith)
            requires
                rows == 0,
        ;
    }
}

impl RgbFrame {
    /// Draws the outline of a rectangle, one pixel thick, in the given
    /// colour. An edge that lies past the picture is drawn in its last
    /// column or row; a rectangle without pixels leaves no trace.
    pub fn draw_rect_outline(self, rect: Rect, color: (u8, u8, u8)) -> (r: RgbFrame)
        ensures
            r.wf(),
            r.spec_width() == self.spec_width(),
            r.spec_height() == self.spec_height(),
            r@ == outlined(
                self@,
                self.spec_width() as int,
                self.spec_height() as int,
                rect,
                color,
                self.spec_height() as int,
            ),
    {
        proof {
            use_type_invariant(&self);
        }
        let width = self.width;
        let height = self.height;
        let ghost w = width as int;
        let ghost h = height as int;
        let ghost data = self@;
        if width == 0 || height == 0 || rect.width == 0 || rect.height == 0 {
            proof {
                lemma_outline_of_nothing(data, w, h, rect, color, h);
            }
            return self;
        }
        let last_column: u32 = width - 1;
        let last_row: u32 = height - 1;
        let x0: u32 = if rect.x > last_column {
            last_column
        } else {
            rect.x
        };
        let y0: u32 = if rect.y > last_row {
            last_row
        } else {
            rect.y
        };
        let right: u64 = rect.x as u64 + rect.width as u64 - 1;
        let lower: u64 = rect.y as u64 + rect.height as u64 - 1;
        let x1: u32 = if right > last_column as u64 {
            last_column
        } else {
            right as u32
        };
        let y1: u32 = if lower > last_row as u64 {
            last_row
        } else {
            lower as u32
        };
        proof {
            assert(self@.len() == self.data.len());
        }
        let mut out: Vec<u8> = Vec::new();
        let mut at: usize = 0;
        let mut py: u32 = 0;
        while py < height
            invariant
                py <= height,
                w == width,
                h == height,
                width > 0,
                height > 0,
                rect.width > 0,
                rect.height > 0,
                data == self@,
                data.len() <= usize::MAX,
                data.len() == 3 * w * h,
                x0 == at_most(rect.x as int, w - 1),
                y0 == at_most(rect.y as int, h - 1),
                x1 == at_most(rect.x + rect.width - 1, w - 1),
                y1 == at_most(rect.y + rect.height - 1, h - 1),
                at == 3 * (py * w),
                out@ == outlined(data, w, h, rect, color, py as int),
            decreases height - py,
        {
            let ghost above = out@;
            let mut px: u32 = 0;
            proof {
                assert(py * w + 0 == py * w);
            }
            while px < width
                invariant
                    px <= width,
                    py < height,
                    w == width,
                    h == height,
                    rect.width > 0,
                    rect.height > 0,
                    data == self@,
                    data.len() <= usize::MAX,
                    data.len() == 3 * w * h,
                    x0 == at_most(rect.x as int, w - 1),
                    y0 == at_most(rect.y as int, h - 1),
                    x1 == at_most(rect.x + rect.width - 1, w - 1),
                    y1 == at_most(rect.y + rect.height - 1, h - 1),
                    at == 3 * (py * w + px),
                    out@ == above + outlined_pixels(data, w, h, rect, color, py as int, px as int),
                decreases width - px,
            {
                proof {
                    lemma_row_in_image(w, h, px as int, py as int, 1);
                }
                let ghost before = out@;
                let on = x0 <= px && px <= x1 && y0 <= py && py <= y1 && (px == x0 || px == x1
                    || py == y0 || py == y1);
                assert(on == rect.on_outline(px as int, py as int, w, h));
                if on {
                    out.push(color.0);
                    out.push(color.1);
                    out.push(color.2);
                } else {
                    out.push(self.data[at]);
                    out.push(self.data[at + 1]);
                    out.push(self.data[at + 2]);
                }
                proof {
                    let pixel = if on {
                        seq![color.0, color.1, color.2]
                    } else {
                        data.subrange(3 * (py * w + px), 3 * (py * w + px) + 3)
                    };
                    assert(out@ =~= before + pixel);
                    assert(outlined_pixels(data, w, h, rect, color, py as int, px + 1)
                        == outlined_pixels(data, w, h, rect, color, py as int, px as int) + pixel);
                    assert(before + pixel =~= above + (outlined_pixels(
                        data,
                        w,
                        h,
                        rect,
                        color,
                        py as int,
                        px as int,
                    ) + pixel));
                }
                at = at + 3;
                px = px + 1;
            }
            proof {
                assert((py + 1) * w == py * w + w) by (nonlinear_arith);
            }
            py = py + 1;
        }
        proof {
            lemma_outlined_len(data, w, h, rect, color, h);
        }
        RgbFrame { width, height, data: out }
    }
}

/// A rectangle or a picture without pixels has no outline: drawing it
/// changes nothing.
pub proof fn lemma_outline_of_nothing(
    data: Seq<u8>,
    w: int,
    h: int,
    rect: Rect,
    color: (u8, u8, u8),
    rows: int,
)
    requires
        data.len() == 3 * w * h,
        0 <= w,
        0 <= rows <= h,
        w == 0 || h == 0 || rect.width == 0 || rect.height == 0,
    ensures
        outlined(data, w, h, rect, color, rows) == data.take(3 * w * rows),
    decreases rows,
{
    if rows > 0 {
        lemma_outline_of_nothing(data, w, h, rect, color, rows - 1);
        lemma_outline_of_nothing_in_row(data, w, h, rect, color, rows - 1, w);
        assert(3 * w * (rows - 1) + 3 * w == 3 * w * rows) by (nonlinear_arith);
        assert(3 * w * (rows - 1) == 3 * ((rows - 1) * w)) by (nonlinear_arith);
        assert(3 * w * rows <= 3 * w * h) by (nonlinear_arith)
            requires
                0 <= w,
                0 <= rows <= h,
        ;
        assert(data.take(3 * w * (rows - 1)) + data.subrange(
            3 * ((rows - 1) * w),
            3 * ((rows - 1) * w) + 3 * w,
        ) =~= data.take(3 * w * rows));
    } else {
        assert(3 * w * rows == 0) by (nonlinear_arith)
            requires
                rows == 0,
        ;
        assert(data.take(0) =~= Seq::<u8>::empty());
    }
}

proof fn lemma_outline_of_nothing_in_row(
    data: Seq<u8>,
    w: int,
    h: int,
    rect: Rect,
    color: (u8, u8, u8),
    py: int,
    cols: int,
)
    requires
        data.len() == 3 * w * h,
        0 <= py < h,
        0 <= cols <= w,
        w == 0 || h == 0 || rect.width == 0 || rect.height == 0,
    ensures
        outlined_pixels(data, w, h, rect, color, py, cols) == data.subrange(
            3 * (py * w),
            3 * (py * w) + 3 * cols,
        ),
    decreases cols,
{
    if cols > 0 {
        lemma_outline_of_nothing_in_row(data, w, h, rect, color, py, cols - 1);
        lemma_row_in_image(w, h, cols - 1, py, 1);
        lemma_row_in_image(w, h, 0, py, cols);
        assert(data.subrange(3 * (py * w), 3 * (py * w) + 3 * (cols - 1)) + data.subrange(
            3 * (py * w + cols - 1),
            3 * (py * w + cols - 1) + 3,
        ) =~= data.subrange(3 * (py * w), 3 * (py * w) + 3 * cols));
    } else {
        lemma_row_in_image(w, h, 0, py, 0);
        assert(data.subrange(3 * (py * w), 3 * (py * w) + 0) =~= Seq::<u8>::empty());
    }
}

} // verus!
