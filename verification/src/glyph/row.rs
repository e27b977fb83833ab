//! Rows of character cells on a frame, and reading their text with an
//! alphabet of masks.

use super::frame::{at_most, region_rows, Rect, RgbFrame, MAX_PIXELS};
use super::mask::{
    best_index, best_score, is_first_best, lemma_best_exists, lemma_weights_bounded, mask_of,
    matched_weight, total_weight, GlyphMask, Score,
};
use vstd::prelude::*;
use vstd::string::StringExecFns;

verus! {

/// One row of character cells of fixed size, side by side, on a frame.
#[derive(Clone, Copy, Debug, PartialEq, Eq, Structural)]
pub struct GlyphRow {
    /// The row of the frame at which the cells begin.
    pub top: u32,
    /// The column of the frame at which the first cell begins.
    pub right: u32,
    /// How many pixels wide a cell is.
    pub width: u32,
    /// How many pixels high a cell is.
    pub height: u32,
    /// How many cells the row has.
    pub columns: u32,
}

/// The scores of a cell's mask against each mask of the alphabet, in the
/// order of the alphabet.
pub open spec fn scores_against(mask: Seq<u8>, chars: Seq<(String, GlyphMask)>) -> Seq<Score> {
    Seq::new(
        chars.len(),
        |j: int|
            Score {
                matched: matched_weight(mask, chars[j].1@, mask.len() as int) as u64,
                total: total_weight(mask, chars[j].1@, mask.len() as int) as u64,
            },
    )
}

/// The text that a cell's mask stands for: that of the character of the
/// alphabet whose mask scores best against it, be the best score zero, and
/// nothing where the alphabet is empty or the cell has no pixels.
pub open spec fn mask_text(mask: Seq<u8>, chars: Seq<(String, GlyphMask)>) -> Seq<char> {
    match best_index(scores_against(mask, chars)) {
        Some(i) => chars[i].0@,
        None => Seq::empty(),
    }
}

/// A cell with pixels reads as a character of the alphabet as soon as the
/// alphabet has one: as the first of those whose masks score highest
/// against the cell's mask, be that score zero.
pub proof fn lemma_cell_with_pixels_reads_a_character(
    mask: Seq<u8>,
    chars: Seq<(String, GlyphMask)>,
)
    requires
        0 < mask.len() <= MAX_PIXELS,
        chars.len() > 0,
    ensures
        best_index(scores_against(mask, chars)) matches Some(i) && is_first_best(
            scores_against(mask, chars),
            i,
        ) && mask_text(mask, chars) == chars[i].0@,
{
    let scores = scores_against(mask, chars);
    assert forall|j: int| 0 <= j < scores.len() implies (#[trigger] scores[j]).counts() by {
        lemma_weights_bounded(mask, chars[j].1@, mask.len() as int);
    }
    assert(scores[0].counts());
    lemma_best_exists(scores, scores.len() as int);
    assert(scores.take(scores.len() as int) =~= scores);
}

impl GlyphRow {
    /// Whether the row lies within a frame of the given size.
    pub open spec fn fits(&self, frame_width: u32, frame_height: u32) -> bool {
        &&& self.right + self.columns * self.width <= frame_width
        &&& self.top + self.height <= frame_height
    }

    /// Whether every mask of the alphabet has the size of a cell of the
    /// row.
    pub open spec fn matches_alphabet(&self, chars: Seq<(String, GlyphMask)>) -> bool {
        forall|j: int|
            0 <= j < chars.len() ==> (#[trigger] chars[j]).1.spec_width() == self.width
                && chars[j].1.spec_height() == self.height
    }

    /// The part that is cell `col` of the row, of a frame that is
    /// `image_width` pixels wide and has the bytes `data`.
    pub open spec fn cell(&self, data: Seq<u8>, image_width: int, col: int) -> Seq<u8> {
        region_rows(
            data,
            image_width,
            self.right + col * self.width,
            self.top as int,
            self.width as int,
            self.height as int,
        )
    }

    /// The text of the first `cols` cells of the row.
    pub open spec fn text(
        &self,
        data: Seq<u8>,
        image_width: int,
        chars: Seq<(String, GlyphMask)>,
        cols: int,
    ) -> Seq<char>
        decreases cols,
    {
        if cols <= 0 {
            Seq::empty()
        } else {
            self.text(data, image_width, chars, cols - 1) + mask_text(
                mask_of(self.cell(data, image_width, cols - 1)),
                chars,
            )
        }
    }

    /// The rectangle of cell `col` of the row; a cell that would begin
    /// past the last column a picture can have begins in that column.
    pub open spec fn cell_rect(&self, col: int) -> Rect {
        Rect {
            x: at_most(self.right + col * self.width, u32::MAX as int) as u32,
            y: self.top,
            width: self.width,
            height: self.height,
        }
    }

    /// The rectangle of cell `col` of the row.
    pub fn rect_of_cell(&self, col: u32) -> (r: Rect)
        ensures
            r == self.cell_rect(col as int),
    {
        assert(0 <= col * self.width <= 0xffff_ffff * 0xffff_ffff) by (nonlinear_arith)
            requires
                0 <= col <= 0xffff_ffff,
                0 <= self.width <= 0xffff_ffff,
        ;
        let x: u64 = self.right as u64 + (col as u64) * (self.width as u64);
        Rect {
            x: if x > u32::MAX as u64 {
                u32::MAX
            } else {
                x as u32
            },
            y: self.top,
            width: self.width,
            height: self.height,
        }
    }

    /// Whether the row lies within the frame.
    pub fn fits_in(&self, frame: &RgbFrame) -> (r: bool)
        ensures
            r == self.fits(frame.spec_width(), frame.spec_height()),
    {
        assert(self.columns * self.width <= 0xffff_ffff * 0xffff_ffff) by (nonlinear_arith)
            requires
                0 <= self.columns <= 0xffff_ffff,
                0 <= self.width <= 0xffff_ffff,
        ;
        let span: u64 = (self.right as u64) + (self.columns as u64) * (self.width as u64);
        span <= frame.width() as u64 && (self.top as u64) + (self.height as u64)
            <= frame.height() as u64
    }

    /// Whether every mask of the alphabet has the size of a cell.
    pub fn takes_alphabet(&self, chars: &Vec<(String, GlyphMask)>) -> (r: bool)
        ensures
            r == self.matches_alphabet(chars@),
    {
        let mut j: usize = 0;
        while j < chars.len()
            invariant
                j <= chars@.len(),
                forall|i: int|
                    0 <= i < j ==> (#[trigger] chars@[i]).1.spec_width() == self.width
                        && chars@[i].1.spec_height() == self.height,
            decreases chars@.len() - j,
        {
            if chars[j].1.width() != self.width || chars[j].1.height() != self.height {
                return false;
            }
            j = j + 1;
        }
        true
    }

    /// Cuts the cells of the row out of the frame, from the first column
    /// to the last.
    pub fn crops(&self, img: &RgbFrame) -> (r: Vec<RgbFrame>)
        requires
            self.fits(img.spec_width(), img.spec_height()),
        ensures
            r@.len() == self.columns,
            forall|col: int|
                0 <= col < self.columns ==> (#[trigger] r@[col])@ == self.cell(img@, img.spec_width() as int, col)
                    && r@[col].spec_width() == self.width && r@[col].spec_height()
                    == self.height && r@[col].wf(),
    {
        let mut out: Vec<RgbFrame> = Vec::new();
        let mut col: u32 = 0;
        while col < self.columns
            invariant
                col <= self.columns,
                self.fits(img.spec_width(), img.spec_height()),
                out@.len() == col,
                forall|c: int|
                    0 <= c < col ==> (#[trigger] out@[c])@ == self.cell(img@, img.spec_width() as int, c)
                        && out@[c].spec_width() == self.width && out@[c].spec_height()
                        == self.height && out@[c].wf(),
            decreases self.columns - col,
        {
            assert(0 <= col * self.width && col * self.width + self.width <= self.columns
                * self.width) by (nonlinear_arith)
                requires
                    0 <= col < self.columns,
                    0 <= self.width,
            ;
            let x: u32 = self.right + col * self.width;
            out.push(img.crop(x, self.top, self.width, self.height));
            col = col + 1;
        }
        out
    }

    /// The masks of the cells of the row, from the first column to the
    /// last.
    pub fn glyphs(&self, img: &RgbFrame) -> (r: Vec<GlyphMask>)
        requires
            self.fits(img.spec_width(), img.spec_height()),
        ensures
            r@.len() == self.columns,
            forall|col: int|
                0 <= col < self.columns ==> (#[trigger] r@[col])@ == mask_of(self.cell(img@, img.spec_width() as int, col))
                    && r@[col].spec_width() == self.width && r@[col].spec_height()
                    == self.height,
    {
        let cells = self.crops(img);
        let mut out: Vec<GlyphMask> = Vec::new();
        let mut col: usize = 0;
        while col < cells.len()
            invariant
                col <= cells@.len(),
                cells@.len() == self.columns,
                out@.len() == col,
                forall|c: int|
                    0 <= c < self.columns ==> (#[trigger] cells@[c])@ == self.cell(img@, img.spec_width() as int, c)
                        && cells@[c].spec_width() == self.width && cells@[c].spec_height()
                        == self.height,
                forall|c: int|
                    0 <= c < col ==> (#[trigger] out@[c])@ == mask_of(self.cell(img@, img.spec_width() as int, c))
                        && out@[c].spec_width() == self.width && out@[c].spec_height()
                        == self.height,
            decreases cells@.len() - col,
        {
            out.push(GlyphMask::from(&cells[col]));
            col = col + 1;
        }
        out
    }

    /// Reads the text of the row off the frame: for each cell the
    /// character of the alphabet whose mask scores best against the cell's
    /// mask, the first of the alphabet among equals, and nothing where the
    /// alphabet is empty or the cells have no pixels.
    pub fn scrape_string(&self, img: &RgbFrame, chars: &Vec<(String, GlyphMask)>) -> (r: String)
        requires
            self.fits(img.spec_width(), img.spec_height()),
            self.matches_alphabet(chars@),
        ensures
            r@ == self.text(img@, img.spec_width() as int, chars@, self.columns as int),
    {
        let masks = self.glyphs(img);
        let mut s = String::new();
        let mut col: usize = 0;
        while col < masks.len()
            invariant
                col <= masks@.len(),
                masks@.len() == self.columns,
                self.matches_alphabet(chars@),
                forall|c: int|
                    0 <= c < self.columns ==> (#[trigger] masks@[c])@ == mask_of(self.cell(img@, img.spec_width() as int, c))
                        && masks@[c].spec_width() == self.width && masks@[c].spec_height()
                        == self.height,
                s@ == self.text(img@, img.spec_width() as int, chars@, col as int),
            decreases masks@.len() - col,
        {
            let glyph = &masks[col];
            let scores = score_against(glyph, chars);
            match best_score(&scores) {
                Some(i) => {
                    s.append(chars[i].0.as_str());
                },
                None => {},
            }
            proof {
                assert(s@ =~= self.text(img@, img.spec_width() as int, chars@, col + 1));
            }
            col = col + 1;
        }
        s
    }
}

/// Scores a cell's mask against each mask of the alphabet.
pub fn score_against(glyph: &GlyphMask, chars: &Vec<(String, GlyphMask)>) -> (r: Vec<Score>)
    requires
        forall|j: int|
            0 <= j < chars@.len() ==> (#[trigger] chars@[j]).1.spec_width() == glyph.spec_width()
                && chars@[j].1.spec_height() == glyph.spec_height(),
    ensures
        r@ == scores_against(glyph@, chars@),
{
    let mut out: Vec<Score> = Vec::new();
    let mut j: usize = 0;
    while j < chars.len()
        invariant
            j <= chars@.len(),
            forall|i: int|
                0 <= i < chars@.len() ==> (#[trigger] chars@[i]).1.spec_width()
                    == glyph.spec_width() && chars@[i].1.spec_height() == glyph.spec_height(),
            out@ == scores_against(glyph@, chars@).take(j as int),
        decreases chars@.len() - j,
    {
        let score = glyph.score_similarity(&chars[j].1);
        out.push(score);
        proof {
            assert(out@ =~= scores_against(glyph@, chars@).take(j + 1));
        }
        j = j + 1;
    }
    proof {
        assert(scores_against(glyph@, chars@).take(chars@.len() as int) =~= scores_against(
            glyph@,
            chars@,
        ));
    }
    out
}

} // verus!
