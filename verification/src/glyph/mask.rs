//! Black-and-white masks of glyphs, their similarity, and the choice of
//! the most similar among several.

use super::frame::{RgbFrame, MAX_PIXELS};
use vstd::prelude::*;

verus! {

/// A pixel counts as white where the mean of its channels is at least this.
pub const WHITE_AVG_MIN: u8 = 220;

/// A pixel counts as white where its channels lie at most this far apart.
pub const WHITE_MAX_CHROMA: u8 = 30;

/// The value of a white pixel of a mask.
pub const WHITE: u8 = 255;

/// The value of a black pixel of a mask.
pub const BLACK: u8 = 0;

/// A mask pixel brighter than this counts as white when masks are compared.
pub const WHITE_ABOVE: u8 = 127;

/// What a pair of pixels weighs in a comparison where one of them is white.
pub const WHITE_WEIGHT: u64 = 15;

/// What a pair of black pixels weighs in a comparison.
pub const BLACK_WEIGHT: u64 = 1;

/// Whether a pixel of the given channels is bright and nearly colourless:
/// the stroke of overlay text rather than the picture behind it.
pub open spec fn is_white(r: u8, g: u8, b: u8) -> bool {
    let avg = (r + g + b) / 3;
    let high = if r >= g && r >= b {
        r
    } else if g >= b {
        g
    } else {
        b
    };
    let low = if r <= g && r <= b {
        r
    } else if g <= b {
        g
    } else {
        b
    };
    avg >= WHITE_AVG_MIN && high - low <= WHITE_MAX_CHROMA
}

/// The mask of a run of RGB pixels: white where the pixel is white, black
/// elsewhere.
pub open spec fn mask_of(rgb: Seq<u8>) -> Seq<u8> {
    Seq::new(
        (rgb.len() / 3) as nat,
        |i: int|
            if is_white(rgb[3 * i], rgb[3 * i + 1], rgb[3 * i + 2]) {
                WHITE
            } else {
                BLACK
            },
    )
}

/// What two masks have in common: the weight of the pixels in which they
/// agree, and the weight of all their pixels.
#[derive(Clone, Copy, Debug, PartialEq, Eq, Structural)]
pub struct Score {
    /// The weight of the pixels in which the masks agree.
    pub matched: u64,
    /// The weight of all pixels.
    pub total: u64,
}

/// What the pair of pixels `a` and `b` weighs: much where one of them is
/// white, little where both are black.
pub open spec fn pair_weight(a: u8, b: u8) -> nat {
    if a > WHITE_ABOVE || b > WHITE_ABOVE {
        WHITE_WEIGHT as nat
    } else {
        BLACK_WEIGHT as nat
    }
}

/// The weight of the first `n` pixels in which the masks `a` and `b` agree.
pub open spec fn matched_weight(a: Seq<u8>, b: Seq<u8>, n: int) -> nat
    decreases n,
{
    if n <= 0 {
        0
    } else if a[n - 1] == b[n - 1] {
        matched_weight(a, b, n - 1) + pair_weight(a[n - 1], b[n - 1])
    } else {
        matched_weight(a, b, n - 1)
    }
}

/// The weight of the first `n` pixels of the masks `a` and `b`.
pub open spec fn total_weight(a: Seq<u8>, b: Seq<u8>, n: int) -> nat
    decreases n,
{
    if n <= 0 {
        0
    } else {
        total_weight(a, b, n - 1) + pair_weight(a[n - 1], b[n - 1])
    }
}

/// The matched weight is at most the total weight, and a pixel weighs at
/// least `BLACK_WEIGHT` and at most `WHITE_WEIGHT`.
pub proof fn lemma_weights_bounded(a: Seq<u8>, b: Seq<u8>, n: int)
    requires
        0 <= n,
    ensures
        matched_weight(a, b, n) <= total_weight(a, b, n),
        n * BLACK_WEIGHT <= total_weight(a, b, n) <= n * WHITE_WEIGHT,
    decreases n,
{
    if n > 0 {
        lemma_weights_bounded(a, b, n - 1);
    }
}

/// A mask agrees with itself in every pixel.
pub proof fn lemma_self_similarity_is_perfect(a: Seq<u8>, n: int)
    requires
        0 <= n,
    ensures
        matched_weight(a, a, n) == total_weight(a, a, n),
    decreases n,
{
    if n > 0 {
        lemma_self_similarity_is_perfect(a, n - 1);
    }
}

/// A mask that is all black and one that is all white agree in no pixel.
pub proof fn lemma_black_and_white_share_nothing(a: Seq<u8>, b: Seq<u8>, n: int)
    requires
        0 <= n <= a.len(),
        n <= b.len(),
        forall|i: int| 0 <= i < n ==> a[i] == BLACK,
        forall|i: int| 0 <= i < n ==> b[i] == WHITE,
    ensures
        matched_weight(a, b, n) == 0,
        total_weight(a, b, n) == n * WHITE_WEIGHT,
    decreases n,
{
    if n > 0 {
        lemma_black_and_white_share_nothing(a, b, n - 1);
    }
}

/// A picture in black and white, one byte a pixel, row by row from the top.
#[derive(Debug)]
pub struct GlyphMask {
    width: u32,
    height: u32,
    bmp: Vec<u8>,
}

impl GlyphMask {
    /// How many pixels wide the mask is.
    pub closed spec fn spec_width(&self) -> u32 {
        self.width
    }

    /// How many pixels high the mask is.
    pub closed spec fn spec_height(&self) -> u32 {
        self.height
    }

    /// The pixels of the mask.
    pub closed spec fn view(&self) -> Seq<u8> {
        self.bmp@
    }

    /// What holds of every mask: it has one byte for each pixel, and no
    /// more than `MAX_PIXELS` pixels.
    #[verifier::type_invariant]
    pub open spec fn wf(&self) -> bool {
        &&& self@.len() == self.spec_width() * self.spec_height()
        &&& self.spec_width() * self.spec_height() <= MAX_PIXELS
    }

    /// Whether the two masks are of one size.
    pub open spec fn same_size(&self, other: &GlyphMask) -> bool {
        self.spec_width() == other.spec_width() && self.spec_height() == other.spec_height()
    }

    /// The mask of the given size whose pixels are the first bytes of
    /// `bmp`; `None` where `bmp` is too short for the size or the size is
    /// more than `MAX_PIXELS` pixels.
    pub fn new(width: u32, height: u32, bmp: Vec<u8>) -> (r: Option<GlyphMask>)
        ensures
            r is Some <==> width * height <= MAX_PIXELS && width * height <= bmp@.len(),
            r matches Some(mask) ==> mask.wf() && mask.spec_width() == width
                && mask.spec_height() == height && mask@ == bmp@.take(width * height),
    {
        assert(width * height <= 0xffff_ffff * 0xffff_ffff) by (nonlinear_arith)
            requires
                width <= 0xffff_ffff,
                height <= 0xffff_ffff,
        ;
        let pixels: u64 = (width as u64) * (height as u64);
        if pixels > MAX_PIXELS {
            return None;
        }
        if (bmp.len() as u64) < pixels {
            return None;
        }
        let mut bmp = bmp;
        bmp.truncate(pixels as usize);
        Some(GlyphMask { width, height, bmp })
    }

    /// How many pixels wide the mask is.
    pub fn width(&self) -> (r: u32)
        ensures
            r == self.spec_width(),
    {
        self.width
    }

    /// How many pixels high the mask is.
    pub fn height(&self) -> (r: u32)
        ensures
            r == self.spec_height(),
    {
        self.height
    }

    /// The pixels of the mask, row by row from the top.
    pub fn pixels(&self) -> (r: &Vec<u8>)
        ensures
            r@ == self@,
    {
        &self.bmp
    }

    /// The mask of a picture: white where the picture is bright and nearly
    /// colourless, black elsewhere.
    pub fn from(value: &RgbFrame) -> (r: GlyphMask)
        ensures
            r.wf(),
            r.spec_width() == value.spec_width(),
            r.spec_height() == value.spec_height(),
            r@ == mask_of(value@),
    {
        proof {
            use_type_invariant(value);
        }
        proof {
            assert(3 * value.spec_width() * value.spec_height() == 3 * (value.spec_width()
                * value.spec_height())) by (nonlinear_arith);
        }
        let data = value.data();
        let count: usize = data.len() / 3;
        let mut bmp: Vec<u8> = Vec::new();
        let mut i: usize = 0;
        while i < count
            invariant
                i <= count,
                data@ == value@,
                count == value@.len() / 3,
                value@.len() == 3 * count,
                3 * count <= usize::MAX,
                bmp@ == mask_of(value@).take(i as int),
            decreases count - i,
        {
            let r = data[3 * i];
            let g = data[3 * i + 1];
            let b = data[3 * i + 2];
            let avg: u16 = (r as u16 + g as u16 + b as u16) / 3;
            let high = if r >= g && r >= b {
                r
            } else if g >= b {
                g
            } else {
                b
            };
            let low = if r <= g && r <= b {
                r
            } else if g <= b {
                g
            } else {
                b
            };
            let pixel = if avg >= WHITE_AVG_MIN as u16 && high - low <= WHITE_MAX_CHROMA {
                WHITE
            } else {
                BLACK
            };
            bmp.push(pixel);
            proof {
                assert(mask_of(value@).take(i + 1) =~= mask_of(value@).take(i as int).push(pixel));
            }
            i = i + 1;
        }
        proof {
            assert(mask_of(value@).take(count as int) =~= mask_of(value@));
            assert(3 * value.spec_width() * value.spec_height() == 3 * (value.spec_width()
                * value.spec_height())) by (nonlinear_arith);
        }
        GlyphMask { width: value.width(), height: value.height(), bmp }
    }

    /// Compares this mask with another of the same size, pixel by pixel.
    /// A pair of pixels of which one is white weighs `WHITE_WEIGHT`, a pair
    /// of black pixels `BLACK_WEIGHT`; the score holds the weight of the
    /// pairs that are equal and the weight of all pairs.
    pub fn score_similarity(&self, other: &GlyphMask) -> (r: Score)
        requires
            self.same_size(other),
        ensures
            r.matched == matched_weight(self@, other@, self@.len() as int),
            r.total == total_weight(self@, other@, self@.len() as int),
    {
        proof {
            use_type_invariant(self);
            use_type_invariant(other);
        }
        let count = self.bmp.len();
        let mut matched: u64 = 0;
        let mut total: u64 = 0;
        let mut i: usize = 0;
        while i < count
            invariant
                i <= count,
                count == self@.len(),
                count == other@.len(),
                count <= MAX_PIXELS,
                matched == matched_weight(self@, other@, i as int),
                total == total_weight(self@, other@, i as int),
            decreases count - i,
        {
            proof {
                lemma_weights_bounded(self@, other@, i as int);
            }
            let a = self.bmp[i];
            let b = other.bmp[i];
            let weight: u64 = if a > WHITE_ABOVE || b > WHITE_ABOVE {
                WHITE_WEIGHT
            } else {
                BLACK_WEIGHT
            };
            if a == b {
                matched = matched + weight;
            }
            total = total + weight;
            i = i + 1;
        }
        Score { matched, total }
    }
}

impl Score {
    /// Whether the score is one that can be compared: the masks had
    /// pixels. A score of zero counts like any other.
    pub open spec fn counts(self) -> bool {
        self.total > 0
    }

    /// Whether this score, taken as the fraction of the total that
    /// matched, is higher than the other.
    pub open spec fn beats(self, other: Score) -> bool {
        self.matched * other.total > other.matched * self.total
    }

    /// Whether enough of the weight matched for the two masks to count as
    /// pictures of one glyph.
    pub open spec fn is_enough(self) -> bool {
        GROUP_SHARE_DEN * self.matched >= GROUP_SHARE_NUM * self.total
    }

    /// Whether enough of the weight matched for the two masks to count as
    /// pictures of one glyph.
    pub fn suffices(&self) -> (r: bool)
        ensures
            r == self.is_enough(),
    {
        assert(GROUP_SHARE_NUM * self.total <= 17 * 0xffff_ffff_ffff_ffff) by (nonlinear_arith)
            requires
                GROUP_SHARE_NUM == 17,
                0 <= self.total <= 0xffff_ffff_ffff_ffff,
        ;
        assert(GROUP_SHARE_DEN * self.matched <= 20 * 0xffff_ffff_ffff_ffff) by (nonlinear_arith)
            requires
                GROUP_SHARE_DEN == 20,
                0 <= self.matched <= 0xffff_ffff_ffff_ffff,
        ;
        (GROUP_SHARE_DEN as u128) * (self.matched as u128) >= (GROUP_SHARE_NUM as u128) * (
        self.total as u128)
    }

    /// Whether the masks had pixels, so that the score can be compared.
    pub fn is_defined(&self) -> (r: bool)
        ensures
            r == self.counts(),
    {
        self.total > 0
    }

    /// Whether this score is higher than the other.
    pub fn is_above(&self, other: &Score) -> (r: bool)
        ensures
            r == self.beats(*other),
    {
        assert(self.matched * other.total <= 0xffff_ffff_ffff_ffff * 0xffff_ffff_ffff_ffff)
            by (nonlinear_arith)
            requires
                0 <= self.matched <= 0xffff_ffff_ffff_ffff,
                0 <= other.total <= 0xffff_ffff_ffff_ffff,
        ;
        assert(other.matched * self.total <= 0xffff_ffff_ffff_ffff * 0xffff_ffff_ffff_ffff)
            by (nonlinear_arith)
            requires
                0 <= other.matched <= 0xffff_ffff_ffff_ffff,
                0 <= self.total <= 0xffff_ffff_ffff_ffff,
        ;
        (self.matched as u128) * (other.total as u128) > (other.matched as u128) * (
        self.total as u128)
    }
}

/// A score that beats one that another does not beat beats that other too.
pub proof fn lemma_beats_carries_over(low: Score, mid: Score, high: Score)
    requires
        low.total > 0,
        mid.total > 0,
        high.total > 0,
        !low.beats(mid),
        high.beats(mid),
    ensures
        high.beats(low),
        !low.beats(high),
{
    let lm = low.matched as int;
    let lt = low.total as int;
    let mm = mid.matched as int;
    let mt = mid.total as int;
    let hm = high.matched as int;
    let ht = high.total as int;
    assert(hm * lt > lm * ht) by (nonlinear_arith)
        requires
            lt > 0,
            mt > 0,
            ht > 0,
            lm >= 0,
            mm >= 0,
            hm >= 0,
            lm * mt <= mm * lt,
            hm * mt > mm * ht,
    {
        assert(lm * mt * ht <= mm * lt * ht);
        assert(hm * mt * lt > mm * ht * lt);
        assert(mm * lt * ht == mm * ht * lt);
        assert(hm * lt * mt > lm * ht * mt);
    }
}

/// Whether the score at `i` is the highest of the scores that count, and
/// the first among equals.
pub open spec fn is_first_best(scores: Seq<Score>, i: int) -> bool {
    &&& 0 <= i < scores.len()
    &&& scores[i].counts()
    &&& forall|j: int|
        0 <= j < scores.len() && (#[trigger] scores[j]).counts() ==> !scores[j].beats(scores[i])
    &&& forall|j: int| 0 <= j < i && (#[trigger] scores[j]).counts() ==> scores[i].beats(scores[j])
}

/// The place of the best score: of the highest that counts, and among
/// equals of the first; `None` where no score counts.
pub open spec fn best_index(scores: Seq<Score>) -> Option<int> {
    if exists|i: int| is_first_best(scores, i) {
        Some(choose|i: int| is_first_best(scores, i))
    } else {
        None
    }
}

/// There is at most one best score.
pub proof fn lemma_first_best_is_unique(scores: Seq<Score>, i: int, j: int)
    requires
        is_first_best(scores, i),
        is_first_best(scores, j),
    ensures
        i == j,
{
    if i < j {
        assert(scores[j].beats(scores[i]));
    } else if j < i {
        assert(scores[i].beats(scores[j]));
    }
}

/// Among the first `n` scores there is a best one as soon as one of them
/// counts.
pub proof fn lemma_best_exists(scores: Seq<Score>, n: int)
    requires
        0 <= n <= scores.len(),
        exists|j: int| 0 <= j < n && (#[trigger] scores[j]).counts(),
    ensures
        exists|i: int| is_first_best(scores.take(n), i),
    decreases n,
{
    let now = scores.take(n);
    let before = scores.take(n - 1);
    assert forall|j: int| 0 <= j < n - 1 implies now[j] == before[j] by {}
    let last = n - 1;
    if exists|j: int| 0 <= j < n - 1 && (#[trigger] scores[j]).counts() {
        lemma_best_exists(scores, n - 1);
        let i = choose|i: int| is_first_best(before, i);
        if scores[last].counts() && scores[last].beats(scores[i]) {
            assert forall|j: int| 0 <= j < now.len() && (#[trigger] now[j]).counts() implies !now[j].beats(
                now[last],
            ) && (j < last ==> now[last].beats(now[j])) by {
                if j < last {
                    assert(before[j].counts());
                    lemma_beats_carries_over(now[j], now[i], now[last]);
                }
            }
            assert(is_first_best(now, last));
        } else {
            assert forall|j: int| 0 <= j < now.len() && (#[trigger] now[j]).counts() implies !now[j].beats(
                now[i],
            ) by {
                if j < last {
                    assert(before[j].counts());
                }
            }
            assert(is_first_best(now, i));
        }
    } else {
        let j = choose|j: int| 0 <= j < n && (#[trigger] scores[j]).counts();
        assert(j == last);
        assert forall|k: int| 0 <= k < now.len() && (#[trigger] now[k]).counts() implies !now[k].beats(
            now[last],
        ) by {
            if k < last {
                assert(scores[k].counts());
            }
        }
        assert(is_first_best(now, last));
    }
}

/// Finds the best of the scores: the highest that counts, be it zero, and
/// among equals the first; `None` where there is no score that counts.
pub fn best_score(scores: &Vec<Score>) -> (r: Option<usize>)
    ensures
        r is Some <==> exists|j: int| 0 <= j < scores@.len() && (#[trigger] scores@[j]).counts(),
        r matches Some(i) ==> is_first_best(scores@, i as int),
        r is None ==> forall|j: int| 0 <= j < scores@.len() ==> !(#[trigger] scores@[j]).counts(),
        r is Some <==> best_index(scores@) is Some,
        r matches Some(i) ==> best_index(scores@) == Some(i as int),
{
    let mut best: Option<usize> = None;
    let mut k: usize = 0;
    while k < scores.len()
        invariant
            k <= scores@.len(),
            best is None ==> forall|j: int| 0 <= j < k ==> !(#[trigger] scores@[j]).counts(),
            best matches Some(i) ==> i < k && is_first_best(scores@.take(k as int), i as int),
        decreases scores@.len() - k,
    {
        let candidate = &scores[k];
        let ghost before = scores@.take(k as int);
        let ghost now = scores@.take(k + 1);
        proof {
            assert forall|j: int| 0 <= j < k implies now[j] == before[j] by {}
        }
        if candidate.is_defined() {
            match best {
                None => {
                    best = Some(k);
                    proof {
                        assert(is_first_best(now, k as int));
                    }
                },
                Some(i) => {
                    if candidate.is_above(&scores[i]) {
                        best = Some(k);
                        proof {
                            assert forall|j: int|
                                0 <= j < now.len() && (#[trigger] now[j]).counts() implies !now[j].beats(
                                now[k as int],
                            ) && (j < k ==> now[k as int].beats(now[j])) by {
                                if j < k {
                                    assert(before[j].counts());
                                    lemma_beats_carries_over(now[j], now[i as int], now[k as int]);
                                }
                            }
                            assert(is_first_best(now, k as int));
                        }
                    } else {
                        proof {
                            assert forall|j: int|
                                0 <= j < now.len() && (#[trigger] now[j]).counts() implies !now[j].beats(
                                now[i as int],
                            ) by {
                                if j < k {
                                    assert(before[j].counts());
                                }
                            }
                            assert(is_first_best(now, i as int));
                        }
                    }
                },
            }
        } else {
            proof {
                if let Some(i) = best {
                    assert forall|j: int|
                        0 <= j < now.len() && (#[trigger] now[j]).counts() implies !now[j].beats(
                        now[i as int],
                    ) by {
                        if j < k {
                            assert(before[j].counts());
                        }
                    }
                    assert(is_first_best(now, i as int));
                }
            }
        }
        k = k + 1;
    }
    proof {
        assert(scores@.take(scores@.len() as int) =~= scores@);
        match best {
            Some(i) => {
                lemma_first_best_is_unique(
                    scores@,
                    i as int,
                    choose|i: int| is_first_best(scores@, i),
                );
            },
            None => {
                assert forall|i: int| !is_first_best(scores@, i) by {
                    if 0 <= i < scores@.len() {
                        assert(!scores@[i].counts());
                    }
                }
            },
        }
    }
    best
}

/// The share of the weight that has to match for two masks to count as
/// pictures of one glyph: `GROUP_SHARE_NUM` parts of `GROUP_SHARE_DEN`.
pub const GROUP_SHARE_NUM: u64 = 17;

/// See `GROUP_SHARE_NUM`.
pub const GROUP_SHARE_DEN: u64 = 20;

/// The scores of a mask against each of the groups, in their order; a
/// group of another size scores nothing.
pub open spec fn scores_among(mask: &GlyphMask, groups: Seq<GlyphMask>) -> Seq<Score> {
    Seq::new(
        groups.len(),
        |j: int|
            if mask.same_size(&groups[j]) {
                Score {
                    matched: matched_weight(mask@, groups[j]@, mask@.len() as int) as u64,
                    total: total_weight(mask@, groups[j]@, mask@.len() as int) as u64,
                }
            } else {
                Score { matched: 0, total: 0 }
            },
    )
}

/// The group to which a mask belongs: the one it is most similar to, the
/// first among equals, if enough of the weight matches; `None` where it
/// belongs to none of them.
pub open spec fn group_among(mask: &GlyphMask, groups: Seq<GlyphMask>) -> Option<int> {
    match best_index(scores_among(mask, groups)) {
        Some(i) => if scores_among(mask, groups)[i].is_enough() {
            Some(i)
        } else {
            None
        },
        None => None,
    }
}

impl GlyphMask {
    /// Finds the group to which the mask belongs, each group being known
    /// by its first member.
    pub fn group_of(&self, groups: &Vec<GlyphMask>) -> (r: Option<usize>)
        ensures
            r is Some <==> group_among(self, groups@) is Some,
            r matches Some(i) ==> group_among(self, groups@) == Some(i as int),
    {
        let mut scores: Vec<Score> = Vec::new();
        let mut j: usize = 0;
        while j < groups.len()
            invariant
                j <= groups@.len(),
                scores@ == scores_among(self, groups@).take(j as int),
            decreases groups@.len() - j,
        {
            let score = if groups[j].width() == self.width && groups[j].height() == self.height {
                self.score_similarity(&groups[j])
            } else {
                Score { matched: 0, total: 0 }
            };
            scores.push(score);
            proof {
                assert(scores@ =~= scores_among(self, groups@).take(j + 1));
            }
            j = j + 1;
        }
        proof {
            assert(scores_among(self, groups@).take(groups@.len() as int) =~= scores_among(
                self,
                groups@,
            ));
        }
        match best_score(&scores) {
            Some(i) => if scores[i].suffices() {
                Some(i)
            } else {
                None
            },
            None => None,
        }
    }
}

/// Puts a mask into the group to which it belongs, or makes it the first
/// member of a new group. Returns the number of the group.
pub fn assign_group(groups: &mut Vec<GlyphMask>, mask: GlyphMask) -> (r: usize)
    ensures
        match group_among(&mask, old(groups)@) {
            Some(i) => r == i && final(groups)@ == old(groups)@,
            None => r == old(groups)@.len() && final(groups)@ == old(groups)@.push(mask),
        },
{
    match mask.group_of(groups) {
        Some(i) => i,
        None => {
            groups.push(mask);
            groups.len() - 1
        },
    }
}

} // verus!
