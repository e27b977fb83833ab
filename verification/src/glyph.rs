//! Reading a geolocation off the text overlay of a frame: cells of a fixed
//! grid are cut out, turned into black-and-white masks and matched against
//! the masks of a small alphabet, and the two rows of text that result are
//! parsed as latitude and longitude.

pub mod coordinate;
pub mod frame;
pub mod mask;
pub mod row;

pub use coordinate::{Coordinate, LatLng, EAST, NORTH, SOUTH, WEST};
pub use frame::{Rect, RgbFrame};
pub use mask::{assign_group, best_score, GlyphMask, Score};
pub use row::GlyphRow;

use coordinate::{coordinates_of, zero_location, LatLngView};
use frame::{outlined, MAX_PIXELS};
use vstd::prelude::*;

verus! {

/// Why the geolocation of a clip could not be read.
#[derive(Clone, Copy, Debug, PartialEq, Eq, Structural)]
pub enum GlyphError {
    /// No frame could be extracted from the clip.
    Frame,
    /// The frame is no picture that can be decoded.
    Decode,
    /// A row of the configuration does not lie within the frame, or a mask
    /// of the alphabet has not the size of a cell.
    Layout,
    /// The text of the first row holds no latitude.
    Latitude,
    /// The text of the second row holds no longitude.
    Longitude,
}

/// One character of the alphabet and where its mask lies.
#[derive(Debug)]
pub struct GlyphChar {
    /// The text that the character stands for.
    pub char: String,
    /// The picture of the character, as a path among the resources.
    pub filepath: String,
}

/// Where the overlay text lies on a frame, and the alphabet it is written
/// in: two rows, the latitude first and the longitude second.
#[derive(Debug)]
pub struct GlyphConfig {
    glyph_rows: Vec<GlyphRow>,
    glyph_chars: Vec<GlyphChar>,
}

impl GlyphConfig {
    /// The rows of the text: the latitude first, the longitude second.
    pub closed spec fn rows(&self) -> Seq<GlyphRow> {
        self.glyph_rows@
    }

    /// The alphabet.
    pub closed spec fn alphabet(&self) -> Seq<GlyphChar> {
        self.glyph_chars@
    }

    /// What holds of every configuration: it has two rows.
    #[verifier::type_invariant]
    pub open spec fn wf(&self) -> bool {
        self.rows().len() == 2
    }

    /// The configuration of the given rows and alphabet; `None` unless
    /// there are two rows.
    pub fn new(glyph_rows: Vec<GlyphRow>, glyph_chars: Vec<GlyphChar>) -> (r: Option<GlyphConfig>)
        ensures
            r is Some <==> glyph_rows@.len() == 2,
            r matches Some(gcfg) ==> gcfg.wf() && gcfg.rows() == glyph_rows@ && gcfg.alphabet()
                == glyph_chars@,
    {
        if glyph_rows.len() != 2 {
            None
        } else {
            Some(GlyphConfig { glyph_rows, glyph_chars })
        }
    }

    /// The rows of the text: the latitude first, the longitude second.
    pub fn glyph_rows(&self) -> (r: &Vec<GlyphRow>)
        ensures
            r@ == self.rows(),
    {
        &self.glyph_rows
    }

    /// The alphabet.
    pub fn glyph_chars(&self) -> (r: &Vec<GlyphChar>)
        ensures
            r@ == self.alphabet(),
    {
        &self.glyph_chars
    }

    /// Whether every mask of the alphabet has the size of a cell of either
    /// row.
    pub open spec fn matches_alphabet(&self, chars: Seq<(String, GlyphMask)>) -> bool {
        forall|r: int| 0 <= r < 2 ==> (#[trigger] self.rows()[r]).matches_alphabet(chars)
    }

    /// Whether the configuration can be used on a frame of the given size
    /// with the given masks of the alphabet: both rows lie within the
    /// frame, and every mask has the size of a cell of either.
    pub open spec fn suits(
        &self,
        chars: Seq<(String, GlyphMask)>,
        frame_width: u32,
        frame_height: u32,
    ) -> bool {
        &&& self.matches_alphabet(chars)
        &&& forall|r: int|
            0 <= r < 2 ==> (#[trigger] self.rows()[r]).fits(frame_width, frame_height)
    }

    /// Whether every mask of the alphabet has the size of a cell of either
    /// row.
    pub fn takes_alphabet(&self, chars: &Vec<(String, GlyphMask)>) -> (r: bool)
        ensures
            r == self.matches_alphabet(chars@),
    {
        proof {
            use_type_invariant(self);
        }
        self.glyph_rows[0].takes_alphabet(chars) && self.glyph_rows[1].takes_alphabet(chars)
    }

    /// The geolocation that the overlay of a frame spells.
    pub open spec fn location_of(
        &self,
        chars: Seq<(String, GlyphMask)>,
        frame_width: u32,
        frame_height: u32,
        data: Seq<u8>,
    ) -> Result<LatLngView, GlyphError> {
        if !self.suits(chars, frame_width, frame_height) {
            Err(GlyphError::Layout)
        } else {
            coordinates_of(
                vstd::utf8::encode_utf8(
                    self.rows()[0].text(
                        data,
                        frame_width as int,
                        chars,
                        self.rows()[0].columns as int,
                    ),
                ),
                vstd::utf8::encode_utf8(
                    self.rows()[1].text(
                        data,
                        frame_width as int,
                        chars,
                        self.rows()[1].columns as int,
                    ),
                ),
            )
        }
    }

    /// Whether the configuration can be used on the frame with the given
    /// masks of the alphabet.
    pub fn suits_frame(&self, chars: &Vec<(String, GlyphMask)>, frame: &RgbFrame) -> (r: bool)
        ensures
            r == self.suits(chars@, frame.spec_width(), frame.spec_height()),
    {
        proof {
            use_type_invariant(self);
        }
        self.takes_alphabet(chars) && self.glyph_rows[0].fits_in(frame)
            && self.glyph_rows[1].fits_in(frame)
    }

    /// Reads the geolocation off the overlay of a frame.
    pub fn locate(&self, chars: &Vec<(String, GlyphMask)>, frame: &RgbFrame) -> (r: Result<
        LatLng,
        GlyphError,
    >)
        ensures
            match r {
                Ok(location) => self.location_of(
                    chars@,
                    frame.spec_width(),
                    frame.spec_height(),
                    frame@,
                ) == Ok::<LatLngView, GlyphError>(location@),
                Err(e) => self.location_of(
                    chars@,
                    frame.spec_width(),
                    frame.spec_height(),
                    frame@,
                ) == Err::<LatLngView, GlyphError>(e),
            },
    {
        proof {
            use_type_invariant(self);
        }
        if !self.suits_frame(chars, frame) {
            return Err(GlyphError::Layout);
        }
        let lat = self.glyph_rows[0].scrape_string(frame, chars);
        let lng = self.glyph_rows[1].scrape_string(frame, chars);
        LatLng::from_strings(lat.as_str(), lng.as_str())
    }
}

/// The image crate's `ImageError`: why bytes are no picture. It is taken
/// unopened.
#[verifier::external_type_specification]
#[verifier::external_body]
pub struct ExImageError(image::ImageError);

/// Calls the image crate's `load_from_memory` and turns the picture into
/// eight bits a channel with `DynamicImage::to_rgb8`; hands back the width,
/// the height and the raw buffer. Trusted: nothing is claimed of the
/// result.
#[verifier::external_body]
fn decode_rgb8(bytes: &[u8]) -> (r: Result<(u32, u32, Vec<u8>), image::ImageError>) {
    let picture = image::load_from_memory(bytes)?.to_rgb8();
    Ok((picture.width(), picture.height(), picture.into_raw()))
}

/// The geolocation of a clip and, where it could not be read, the cause.
#[derive(Debug)]
pub struct Scraped {
    /// The geolocation; zero latitude and zero longitude where it could
    /// not be read.
    pub location: LatLng,
    /// Why the geolocation could not be read, if it could not.
    pub failure: Option<GlyphError>,
}

/// What reading the geolocation off a frame comes to: the location and no
/// failure where it can be read, the zero location and the cause where it
/// cannot.
pub open spec fn settled(read: Result<LatLngView, GlyphError>) -> (LatLngView, Option<GlyphError>) {
    match read {
        Ok(location) => (location, None),
        Err(e) => (zero_location(), Some(e)),
    }
}

/// What reading the geolocation off a decoded frame comes to: `picture`
/// holds the width, the height and the bytes of the pixels, or nothing
/// where the frame could not be decoded.
pub open spec fn scraped_of(
    gcfg: &GlyphConfig,
    chars: Seq<(String, GlyphMask)>,
    picture: Option<(u32, u32, Seq<u8>)>,
) -> (LatLngView, Option<GlyphError>) {
    match picture {
        None => (zero_location(), Some(GlyphError::Decode)),
        Some(picture) => if picture.0 * picture.1 <= MAX_PIXELS && 3 * picture.0 * picture.1
            <= picture.2.len() {
            settled(
                gcfg.location_of(
                    chars,
                    picture.0,
                    picture.1,
                    picture.2.take(3 * picture.0 * picture.1),
                ),
            )
        } else {
            (zero_location(), Some(GlyphError::Decode))
        },
    }
}

/// The width, the height and the bytes of a decoded picture as plain
/// values.
pub open spec fn picture_view(picture: Option<(u32, u32, Vec<u8>)>) -> Option<(u32, u32, Seq<u8>)> {
    match picture {
        Some(p) => Some((p.0, p.1, p.2@)),
        None => None,
    }
}

/// Settles what was read off a frame: a geolocation that could not be read
/// becomes the zero location with its cause.
pub fn settle(read: Result<LatLng, GlyphError>) -> (r: Scraped)
    ensures
        r.location@ == (match read {
            Ok(location) => location@,
            Err(_) => zero_location(),
        }),
        r.failure == (match read {
            Ok(_) => None::<GlyphError>,
            Err(e) => Some(e),
        }),
{
    match read {
        Ok(location) => Scraped { location, failure: None },
        Err(e) => Scraped { location: LatLng::default(), failure: Some(e) },
    }
}

/// Reads the geolocation off a decoded frame, given as its width, its
/// height and the bytes of its pixels, or settles for the zero location
/// where the frame could not be decoded, holds fewer bytes than its size
/// asks for or more pixels than a picture can have, where the
/// configuration does not suit it, or where the overlay spells no
/// geolocation.
pub fn scrape_picture(
    gcfg: &GlyphConfig,
    chars: &Vec<(String, GlyphMask)>,
    picture: Option<(u32, u32, Vec<u8>)>,
) -> (r: Scraped)
    ensures
        (r.location@, r.failure) == scraped_of(gcfg, chars@, picture_view(picture)),
{
    match picture {
        None => settle(Err(GlyphError::Decode)),
        Some(decoded) => {
            let (width, height, data) = decoded;
            match RgbFrame::new(width, height, data) {
                None => settle(Err(GlyphError::Decode)),
                Some(frame) => settle(gcfg.locate(chars, &frame)),
            }
        },
    }
}

/// Reads the geolocation of a clip off its first frame, a picture file:
/// the file is decoded, and the geolocation read off the decoded frame.
/// Where no frame could be extracted the zero location stands for it.
pub fn scrape_clip_location(
    gcfg: &GlyphConfig,
    chars: &Vec<(String, GlyphMask)>,
    jpg_data: Option<Vec<u8>>,
) -> (r: Scraped)
    ensures
        jpg_data is None ==> (r.location@, r.failure) == (
            zero_location(),
            Some(GlyphError::Frame),
        ),
        jpg_data is Some ==> exists|picture: Option<(u32, u32, Seq<u8>)>|
            (r.location@, r.failure) == #[trigger] scraped_of(gcfg, chars@, picture),
{
    match jpg_data {
        None => settle(Err(GlyphError::Frame)),
        Some(bytes) => {
            let picture = match decode_rgb8(bytes.as_slice()) {
                Ok(picture) => Some(picture),
                Err(_) => None,
            };
            scrape_picture(gcfg, chars, picture)
        },
    }
}

/// The red part of the colour in which the cells of the rows are outlined.
pub const OUTLINE_RED: u8 = 255;

/// The green part of the colour in which the cells are outlined.
pub const OUTLINE_GREEN: u8 = 0;

/// The blue part of the colour in which the cells are outlined.
pub const OUTLINE_BLUE: u8 = 0;

/// The colour in which the cells of the rows are outlined.
pub open spec fn outline_color() -> (u8, u8, u8) {
    (OUTLINE_RED, OUTLINE_GREEN, OUTLINE_BLUE)
}

/// The bytes of a picture on which the first `cols` cells of `row` have
/// been outlined.
pub open spec fn annotated_row(data: Seq<u8>, w: int, h: int, row: GlyphRow, cols: int) -> Seq<u8>
    decreases cols,
{
    if cols <= 0 {
        data
    } else {
        outlined(
            annotated_row(data, w, h, row, cols - 1),
            w,
            h,
            row.cell_rect(cols - 1),
            outline_color(),
            h,
        )
    }
}

/// The bytes of a picture on which the cells of the first `n` of the rows
/// have been outlined.
pub open spec fn annotated(data: Seq<u8>, w: int, h: int, rows: Seq<GlyphRow>, n: int) -> Seq<u8>
    decreases n,
{
    if n <= 0 {
        data
    } else {
        annotated_row(annotated(data, w, h, rows, n - 1), w, h, rows[n - 1], rows[n - 1].columns as int)
    }
}

impl GlyphConfig {
    /// Outlines every cell of every row on the picture, to show where the
    /// configuration looks for the overlay.
    pub fn annotate_image(&self, img: RgbFrame) -> (r: RgbFrame)
        ensures
            r.wf(),
            r.spec_width() == img.spec_width(),
            r.spec_height() == img.spec_height(),
            r@ == annotated(
                img@,
                img.spec_width() as int,
                img.spec_height() as int,
                self.rows(),
                self.rows().len() as int,
            ),
    {
        let ghost w = img.spec_width() as int;
        let ghost h = img.spec_height() as int;
        let ghost data = img@;
        let mut frame = img;
        let mut n: usize = 0;
        while n < self.glyph_rows.len()
            invariant
                n <= self.rows().len(),
                frame.spec_width() == w,
                frame.spec_height() == h,
                frame@ == annotated(data, w, h, self.rows(), n as int),
            decreases self.rows().len() - n,
        {
            let row = self.glyph_rows[n];
            let ghost before = frame@;
            let mut col: u32 = 0;
            while col < row.columns
                invariant
                    col <= row.columns,
                    frame.spec_width() == w,
                    frame.spec_height() == h,
                    frame@ == annotated_row(before, w, h, row, col as int),
                decreases row.columns - col,
            {
                frame = frame.draw_rect_outline(
                    row.rect_of_cell(col),
                    (OUTLINE_RED, OUTLINE_GREEN, OUTLINE_BLUE),
                );
                col = col + 1;
            }
            n = n + 1;
        }
        proof {
            use_type_invariant(&frame);
        }
        frame
    }
}

} // verus!
