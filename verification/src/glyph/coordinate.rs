//! Latitude and longitude as the overlay writes them: a letter for the
//! hemisphere, whole degrees, and a decimal fraction.

use super::GlyphError;
use vstd::prelude::*;
use vstd::string::StringSliceAdditionalSpecFns;

verus! {

/// The byte of the colon.
pub const COLON: u8 = 58;

/// The byte of the full stop.
pub const FULL_STOP: u8 = 46;

/// The byte of the space.
pub const SPACE: u8 = 32;

/// The byte of the digit `0`.
pub const DIGIT_ZERO: u8 = 48;

/// The byte of the digit `9`.
pub const DIGIT_NINE: u8 = 57;

/// The byte of the letter `N`, which marks a northern latitude.
pub const NORTH: u8 = 78;

/// The byte of the letter `S`, which marks a southern latitude.
pub const SOUTH: u8 = 83;

/// The byte of the letter `E`, which marks an eastern longitude.
pub const EAST: u8 = 69;

/// The byte of the letter `W`, which marks a western longitude.
pub const WEST: u8 = 87;

/// What stands between the parts of a coordinate: a colon, a full stop or
/// a space.
pub open spec fn is_separator(b: u8) -> bool {
    b == COLON || b == FULL_STOP || b == SPACE
}

/// Whether the byte is one of the digits `0` to `9`.
pub open spec fn is_digit(b: u8) -> bool {
    DIGIT_ZERO <= b <= DIGIT_NINE
}

/// How many digits follow each other in `s` from the place `p` on.
pub open spec fn digit_run(s: Seq<u8>, p: int) -> int
    decreases s.len() - p,
{
    if 0 <= p < s.len() && is_digit(s[p]) {
        1 + digit_run(s, p + 1)
    } else {
        0
    }
}

/// The number that the `n` digits of `s` from the place `p` on spell.
pub open spec fn digits_value(s: Seq<u8>, p: int, n: int) -> int
    decreases n,
{
    if n <= 0 {
        0
    } else {
        digits_value(s, p, n - 1) * 10 + (s[p + n - 1] - DIGIT_ZERO)
    }
}

/// The `n` digits of `s` from the place `p` on, each as the number it
/// stands for.
pub open spec fn digit_values(s: Seq<u8>, p: int, n: int) -> Seq<u8> {
    Seq::new(n as nat, |k: int| (s[p + k] - DIGIT_ZERO) as u8)
}

/// A coordinate as it was read: its sign, its whole degrees and the digits
/// after the decimal point.
pub struct CoordinateView {
    /// Whether the coordinate lies south of the equator or west of the
    /// prime meridian.
    pub negative: bool,
    /// The whole degrees.
    pub degrees: int,
    /// The digits after the decimal point, each from 0 to 9.
    pub fraction: Seq<u8>,
}

/// A latitude or a longitude in decimal degrees, held digit by digit as it
/// was read.
#[derive(Debug, PartialEq, Eq)]
pub struct Coordinate {
    /// Whether the coordinate lies south of the equator or west of the
    /// prime meridian.
    pub negative: bool,
    /// The whole degrees.
    pub degrees: u16,
    /// The digits after the decimal point, each from 0 to 9.
    pub fraction: Vec<u8>,
}

impl View for Coordinate {
    type V = CoordinateView;

    open spec fn view(&self) -> CoordinateView {
        CoordinateView {
            negative: self.negative,
            degrees: self.degrees as int,
            fraction: self.fraction@,
        }
    }
}

/// The coordinate that is written in `s` from the place `p` on, if one is:
/// one of the two letters, then a separator or none, then two or three
/// digits of degrees, a separator, and all the digits that follow, of which
/// there is at least one.
pub open spec fn coordinate_at(s: Seq<u8>, p: int, positive: u8, negative: u8) -> Option<
    CoordinateView,
> {
    if 0 <= p < s.len() && (s[p] == positive || s[p] == negative) {
        let q = if p + 1 < s.len() && is_separator(s[p + 1]) {
            p + 2
        } else {
            p + 1
        };
        let k = digit_run(s, q);
        let f = q + k + 1;
        if (k == 2 || k == 3) && q + k < s.len() && is_separator(s[q + k]) && digit_run(s, f)
            >= 1 {
            Some(
                CoordinateView {
                    negative: s[p] != positive,
                    degrees: digits_value(s, q, k),
                    fraction: digit_values(s, f, digit_run(s, f)),
                },
            )
        } else {
            None
        }
    } else {
        None
    }
}

/// The first coordinate that is written in `s` at or after the place
/// `from`.
pub open spec fn first_coordinate(s: Seq<u8>, from: int, positive: u8, negative: u8) -> Option<
    CoordinateView,
>
    decreases s.len() - from,
{
    if from < 0 || from >= s.len() {
        None
    } else {
        match coordinate_at(s, from, positive, negative) {
            Some(c) => Some(c),
            None => first_coordinate(s, from + 1, positive, negative),
        }
    }
}

/// A run of digits ends within the text, and every byte of it is a digit.
pub proof fn lemma_digit_run(s: Seq<u8>, p: int)
    requires
        0 <= p,
    ensures
        0 <= digit_run(s, p),
        p + digit_run(s, p) <= s.len() || digit_run(s, p) == 0,
        forall|k: int| p <= k < p + digit_run(s, p) ==> is_digit(#[trigger] s[k]),
        p + digit_run(s, p) < s.len() ==> !is_digit(s[p + digit_run(s, p)]),
    decreases s.len() - p,
{
    if p < s.len() && is_digit(s[p]) {
        lemma_digit_run(s, p + 1);
    }
}

/// Counts the digits that follow each other from the place `p` on.
fn count_digits(s: &[u8], p: usize) -> (r: usize)
    ensures
        r == digit_run(s@, p as int),
        p + r <= s@.len() || r == 0,
{
    if p >= s.len() {
        return 0;
    }
    let mut i: usize = p;
    while i < s.len() && s[i] >= DIGIT_ZERO && s[i] <= DIGIT_NINE
        invariant
            p <= i <= s@.len(),
            digit_run(s@, p as int) == (i - p) + digit_run(s@, i as int),
        decreases s@.len() - i,
    {
        i = i + 1;
    }
    i - p
}

/// Reads the coordinate that is written from the place `p` on, if one is.
fn read_coordinate_at(s: &[u8], p: usize, positive: u8, negative: u8) -> (r: Option<Coordinate>)
    requires
        p < s@.len(),
    ensures
        r is Some <==> coordinate_at(s@, p as int, positive, negative) is Some,
        r matches Some(c) ==> Some(c@) == coordinate_at(s@, p as int, positive, negative),
{
    if s[p] != positive && s[p] != negative {
        return None;
    }
    let after_letter: usize = p + 1;
    let q: usize = if after_letter < s.len() && (s[after_letter] == COLON || s[after_letter]
        == FULL_STOP || s[after_letter] == SPACE) {
        p + 2
    } else {
        p + 1
    };
    let k = count_digits(s, q);
    if k != 2 && k != 3 {
        return None;
    }
    let sep: usize = q + k;
    if sep >= s.len() {
        return None;
    }
    if s[sep] != COLON && s[sep] != FULL_STOP && s[sep] != SPACE {
        return None;
    }
    let f: usize = sep + 1;
    let m = count_digits(s, f);
    if m < 1 {
        return None;
    }
    proof {
        lemma_digit_run(s@, q as int);
        lemma_digit_run(s@, f as int);
    }
    proof {
        assert(s@.len() == s.len());
    }
    let mut degrees: u16 = 0;
    let mut i: usize = 0;
    while i < k
        invariant
            s@.len() <= usize::MAX,
            i <= k <= 3,
            q + k <= s@.len(),
            degrees == digits_value(s@, q as int, i as int),
            degrees < 1000,
            i == 0 ==> degrees == 0,
            i == 1 ==> degrees < 10,
            i == 2 ==> degrees < 100,
            forall|j: int| q <= j < q + k ==> is_digit(#[trigger] s@[j]),
        decreases k - i,
    {
        assert(is_digit(s@[q + i]));
        degrees = degrees * 10 + (s[q + i] - DIGIT_ZERO) as u16;
        i = i + 1;
    }
    let mut fraction: Vec<u8> = Vec::new();
    let mut j: usize = 0;
    while j < m
        invariant
            s@.len() <= usize::MAX,
            j <= m,
            f + m <= s@.len(),
            fraction@ == digit_values(s@, f as int, m as int).take(j as int),
            forall|i: int| f <= i < f + m ==> is_digit(#[trigger] s@[i]),
        decreases m - j,
    {
        assert(is_digit(s@[f + j]));
        fraction.push(s[f + j] - DIGIT_ZERO);
        proof {
            assert(fraction@ =~= digit_values(s@, f as int, m as int).take(j + 1));
        }
        j = j + 1;
    }
    proof {
        assert(digit_values(s@, f as int, m as int).take(m as int) =~= digit_values(
            s@,
            f as int,
            m as int,
        ));
    }
    Some(Coordinate { negative: s[p] != positive, degrees, fraction })
}

/// A geolocation as it was read.
pub struct LatLngView {
    /// The latitude.
    pub lat: CoordinateView,
    /// The longitude.
    pub lng: CoordinateView,
}

/// The coordinate of zero degrees.
pub open spec fn zero_coordinate() -> CoordinateView {
    CoordinateView { negative: false, degrees: 0, fraction: Seq::empty() }
}

/// The place at zero latitude and zero longitude, which stands for a
/// geolocation that could not be read.
pub open spec fn zero_location() -> LatLngView {
    LatLngView { lat: zero_coordinate(), lng: zero_coordinate() }
}

/// A geolocation in decimal degrees.
#[derive(Debug, PartialEq, Eq)]
pub struct LatLng {
    /// The latitude, negative south of the equator.
    pub lat: Coordinate,
    /// The longitude, negative west of the prime meridian.
    pub lng: Coordinate,
}

impl View for LatLng {
    type V = LatLngView;

    open spec fn view(&self) -> LatLngView {
        LatLngView { lat: self.lat@, lng: self.lng@ }
    }
}

impl Default for Coordinate {
    fn default() -> (r: Coordinate)
        ensures
            r@ == zero_coordinate(),
    {
        Coordinate { negative: false, degrees: 0, fraction: Vec::new() }
    }
}

impl Default for LatLng {
    fn default() -> (r: LatLng)
        ensures
            r@ == zero_location(),
    {
        LatLng { lat: Coordinate::default(), lng: Coordinate::default() }
    }
}

/// The geolocation that the texts of the two rows spell.
pub open spec fn coordinates_of(lat: Seq<u8>, lng: Seq<u8>) -> Result<LatLngView, GlyphError> {
    match first_coordinate(lat, 0, NORTH, SOUTH) {
        None => Err(GlyphError::Latitude),
        Some(latitude) => match first_coordinate(lng, 0, EAST, WEST) {
            None => Err(GlyphError::Longitude),
            Some(longitude) => Ok(LatLngView { lat: latitude, lng: longitude }),
        },
    }
}

impl LatLng {
    /// Reads the first coordinate that is written in `s` with one of the
    /// two letters: `positive` for north or east, `negative` for south or
    /// west.
    pub fn parse_lat_lng(s: &str, positive: u8, negative: u8) -> (r: Option<Coordinate>)
        ensures
            r is Some <==> first_coordinate(s.spec_bytes(), 0, positive, negative) is Some,
            r matches Some(c) ==> Some(c@) == first_coordinate(
                s.spec_bytes(),
                0,
                positive,
                negative,
            ),
    {
        let bytes = s.as_bytes();
        let mut p: usize = 0;
        while p < bytes.len()
            invariant
                p <= bytes@.len(),
                bytes@ == s.spec_bytes(),
                first_coordinate(bytes@, 0, positive, negative) == first_coordinate(
                    bytes@,
                    p as int,
                    positive,
                    negative,
                ),
            decreases bytes@.len() - p,
        {
            match read_coordinate_at(bytes, p, positive, negative) {
                Some(c) => {
                    return Some(c);
                },
                None => {},
            }
            p = p + 1;
        }
        None
    }

    /// Reads a geolocation off the texts of the two rows: a latitude,
    /// marked `N` or `S`, off the first and a longitude, marked `E` or
    /// `W`, off the second.
    pub fn from_strings(lat: &str, lng: &str) -> (r: Result<LatLng, GlyphError>)
        ensures
            match r {
                Ok(location) => coordinates_of(lat.spec_bytes(), lng.spec_bytes()) == Ok::<
                    LatLngView,
                    GlyphError,
                >(location@),
                Err(e) => coordinates_of(lat.spec_bytes(), lng.spec_bytes()) == Err::<
                    LatLngView,
                    GlyphError,
                >(e),
            },
    {
        match Self::parse_lat_lng(lat, NORTH, SOUTH) {
            None => Err(GlyphError::Latitude),
            Some(latitude) => match Self::parse_lat_lng(lng, EAST, WEST) {
                None => Err(GlyphError::Longitude),
                Some(longitude) => Ok(LatLng { lat: latitude, lng: longitude }),
            },
        }
    }
}

} // verus!
