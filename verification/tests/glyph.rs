use cliplapse::glyph::{
    assign_group, best_score, scrape_clip_location, scrape_picture, settle, Coordinate, GlyphChar,
    GlyphConfig, GlyphError, GlyphMask, GlyphRow, LatLng, Rect, RgbFrame, Score, EAST, NORTH,
    SOUTH, WEST,
};

fn coordinate(negative: bool, degrees: u16, fraction: &[u8]) -> Coordinate {
    Coordinate { negative, degrees, fraction: fraction.to_vec() }
}

/// The number that a coordinate stands for.
fn degrees_of(c: &Coordinate) -> f64 {
    let digits: String = c.fraction.iter().map(|d| (b'0' + d) as char).collect();
    let value: f64 = format!("{}.{}", c.degrees, digits).parse().unwrap();
    if c.negative {
        -value
    } else {
        value
    }
}

fn mask(width: u32, height: u32, pixels: &[u8]) -> GlyphMask {
    GlyphMask::new(width, height, pixels.to_vec()).unwrap()
}

fn one_pixel_mask(r: u8, g: u8, b: u8) -> u8 {
    let frame = RgbFrame::new(1, 1, vec![r, g, b]).unwrap();
    GlyphMask::from(&frame).pixels()[0]
}

#[test]
fn northern_latitude_is_positive() {
    let read = LatLng::from_strings("N40.7128", "W074.0060").unwrap();
    assert_eq!(read.lat, coordinate(false, 40, &[7, 1, 2, 8]));
    assert_eq!(read.lng, coordinate(true, 74, &[0, 0, 6, 0]));
    assert_eq!(degrees_of(&read.lat), 40.7128);
    assert_eq!(degrees_of(&read.lng), -74.006);
}

#[test]
fn southern_latitude_is_negative() {
    let read = LatLng::from_strings("S40.7128", "E151.2093").unwrap();
    assert_eq!(degrees_of(&read.lat), -40.7128);
    assert_eq!(degrees_of(&read.lng), 151.2093);
}

#[test]
fn row_without_a_cardinal_settles_for_the_zero_location() {
    let read = LatLng::from_strings("40.7128", "W074.0060");
    assert_eq!(read, Err(GlyphError::Latitude));
    let settled = settle(read);
    assert_eq!(settled.failure, Some(GlyphError::Latitude));
    assert_eq!(settled.location, LatLng::default());
    assert_eq!(degrees_of(&settled.location.lat), 0.0);
    assert_eq!(degrees_of(&settled.location.lng), 0.0);
    assert_eq!(LatLng::from_strings("N40.7128", "074.0060"), Err(GlyphError::Longitude));
    assert_eq!(LatLng::from_strings("E40.7128", "N074.0060"), Err(GlyphError::Latitude));
}

#[test]
fn separators_may_be_colon_stop_or_space() {
    for lat in ["N 40.7128", "N:40:7128", "N.40 7128", "N40 7128", "N40:7128"] {
        assert_eq!(
            LatLng::parse_lat_lng(lat, NORTH, SOUTH),
            Some(coordinate(false, 40, &[7, 1, 2, 8])),
            "{}",
            lat
        );
    }
    assert_eq!(LatLng::parse_lat_lng("N-40.7128", NORTH, SOUTH), None);
    assert_eq!(LatLng::parse_lat_lng("N  40.7128", NORTH, SOUTH), None);
    assert_eq!(LatLng::parse_lat_lng("N40,7128", NORTH, SOUTH), None);
    assert_eq!(LatLng::parse_lat_lng("N40.", NORTH, SOUTH), None);
    assert_eq!(LatLng::parse_lat_lng("N40", NORTH, SOUTH), None);
    assert_eq!(LatLng::parse_lat_lng("N", NORTH, SOUTH), None);
    assert_eq!(LatLng::parse_lat_lng("", NORTH, SOUTH), None);
}

#[test]
fn degrees_have_two_or_three_digits() {
    assert_eq!(LatLng::parse_lat_lng("W7.5", EAST, WEST), None);
    assert_eq!(LatLng::parse_lat_lng("W07.5", EAST, WEST), Some(coordinate(true, 7, &[5])));
    assert_eq!(LatLng::parse_lat_lng("W007.5", EAST, WEST), Some(coordinate(true, 7, &[5])));
    assert_eq!(LatLng::parse_lat_lng("W179.99", EAST, WEST), Some(coordinate(true, 179, &[9, 9])));
    assert_eq!(LatLng::parse_lat_lng("W999.0", EAST, WEST), Some(coordinate(true, 999, &[0])));
    assert_eq!(LatLng::parse_lat_lng("W1234.5", EAST, WEST), None);
}

#[test]
fn first_coordinate_in_the_text_is_read() {
    assert_eq!(
        LatLng::parse_lat_lng("GPS N12.5 S34.25", NORTH, SOUTH),
        Some(coordinate(false, 12, &[5]))
    );
    assert_eq!(
        LatLng::parse_lat_lng("NS N1.5 xS34.250km/h N50.1", NORTH, SOUTH),
        Some(coordinate(true, 34, &[2, 5, 0]))
    );
    assert_eq!(
        LatLng::parse_lat_lng("\u{e9}t\u{e9} N48.85\u{b0}", NORTH, SOUTH),
        Some(coordinate(false, 48, &[8, 5]))
    );
}

#[test]
fn fraction_takes_every_digit_that_follows() {
    let read = LatLng::parse_lat_lng("E013.377704000000000000001 ", EAST, WEST).unwrap();
    assert_eq!(read.degrees, 13);
    assert_eq!(read.fraction.len(), 21);
    assert_eq!(read.fraction[20], 1);
    assert!(!read.negative);
}

#[test]
fn bright_and_colourless_pixels_are_white() {
    assert_eq!(one_pixel_mask(255, 255, 255), 255);
    assert_eq!(one_pixel_mask(220, 220, 220), 255);
    assert_eq!(one_pixel_mask(219, 220, 220), 0);
    assert_eq!(one_pixel_mask(220, 220, 221), 255);
    assert_eq!(one_pixel_mask(255, 225, 255), 255);
    assert_eq!(one_pixel_mask(255, 224, 255), 0);
    assert_eq!(one_pixel_mask(225, 255, 240), 255);
    assert_eq!(one_pixel_mask(0, 0, 0), 0);
    assert_eq!(one_pixel_mask(255, 255, 0), 0);
    assert_eq!(one_pixel_mask(200, 230, 230), 255);
    assert_eq!(one_pixel_mask(199, 230, 230), 0);
}

#[test]
fn mask_follows_the_pixels_row_by_row() {
    let white = [250u8, 250, 250];
    let red = [250u8, 10, 10];
    let mut data = Vec::new();
    for pixel in [white, red, red, white, white, white] {
        data.extend_from_slice(&pixel);
    }
    let frame = RgbFrame::new(3, 2, data).unwrap();
    let made = GlyphMask::from(&frame);
    assert_eq!((made.width(), made.height()), (3, 2));
    assert_eq!(made.pixels(), &vec![255u8, 0, 0, 255, 255, 255]);
}

#[test]
fn pictures_need_their_bytes() {
    assert!(RgbFrame::new(2, 2, vec![0; 11]).is_none());
    assert!(RgbFrame::new(2, 2, vec![0; 12]).is_some());
    assert_eq!(RgbFrame::new(2, 2, vec![7; 20]).unwrap().data().len(), 12);
    assert!(RgbFrame::new(0, 5, Vec::new()).is_some());
    assert!(RgbFrame::new(u32::MAX, u32::MAX, Vec::new()).is_none());
    assert!(GlyphMask::new(2, 3, vec![0; 5]).is_none());
    assert_eq!(GlyphMask::new(2, 3, vec![9; 8]).unwrap().pixels(), &vec![9u8; 6]);
    assert!(GlyphMask::new(u32::MAX, u32::MAX, Vec::new()).is_none());
}

#[test]
fn region_is_cut_out_row_by_row() {
    // a picture of 4 by 3 whose red channel counts the pixels
    let mut data = Vec::new();
    for n in 0..12u8 {
        data.extend_from_slice(&[n, 100 + n, 200 + n]);
    }
    let frame = RgbFrame::new(4, 3, data).unwrap();
    let cut = frame.crop(1, 1, 2, 2);
    assert_eq!((cut.width(), cut.height()), (2, 2));
    assert_eq!(cut.data(), &vec![5u8, 105, 205, 6, 106, 206, 9, 109, 209, 10, 110, 210]);
    let whole = frame.crop(0, 0, 4, 3);
    assert_eq!(whole.data(), frame.data());
    let nothing = frame.crop(4, 3, 0, 0);
    assert!(nothing.data().is_empty());
}

#[test]
fn mask_is_perfectly_similar_to_itself() {
    for pixels in [vec![255u8, 0, 0, 255], vec![0u8; 4], vec![255u8; 4], vec![3u8, 130, 127, 128]] {
        let m = mask(2, 2, &pixels);
        let score = m.score_similarity(&m);
        assert_eq!(score.matched, score.total);
        assert!(score.total > 0);
        assert_eq!(score.matched as f64 / score.total as f64, 1.0);
    }
}

#[test]
fn black_and_white_share_nothing() {
    let black = mask(3, 2, &[0; 6]);
    let white = mask(3, 2, &[255; 6]);
    let score = black.score_similarity(&white);
    assert_eq!(score, Score { matched: 0, total: 90 });
    assert_eq!(score.matched as f64 / score.total as f64, 0.0);
    assert_eq!(white.score_similarity(&black), Score { matched: 0, total: 90 });
}

#[test]
fn white_pixels_weigh_fifteen_times_as_much() {
    let a = mask(2, 2, &[255, 0, 0, 255]);
    let b = mask(2, 2, &[255, 0, 255, 0]);
    assert_eq!(a.score_similarity(&b), Score { matched: 16, total: 46 });
    let all_black = mask(2, 2, &[0; 4]);
    assert_eq!(all_black.score_similarity(&all_black), Score { matched: 4, total: 4 });
    // grey values are white above 127, and agree only where they are equal
    let grey = mask(2, 2, &[128, 127, 200, 100]);
    let other = mask(2, 2, &[128, 126, 201, 100]);
    assert_eq!(grey.score_similarity(&other), Score { matched: 16, total: 32 });
}

#[test]
fn empty_masks_have_no_score() {
    let empty = mask(0, 0, &[]);
    let score = empty.score_similarity(&empty);
    assert_eq!(score, Score { matched: 0, total: 0 });
    assert!(!score.is_defined());
    assert!(Score { matched: 0, total: 4 }.is_defined());
    assert!(Score { matched: 3, total: 4 }.is_defined());
}

#[test]
fn higher_fraction_is_above() {
    let half = Score { matched: 1, total: 2 };
    let two_thirds = Score { matched: 2, total: 3 };
    let also_half = Score { matched: 50, total: 100 };
    assert!(two_thirds.is_above(&half));
    assert!(!half.is_above(&two_thirds));
    assert!(!half.is_above(&also_half));
    assert!(!also_half.is_above(&half));
    let huge = Score { matched: u64::MAX, total: u64::MAX };
    let nearly = Score { matched: u64::MAX - 1, total: u64::MAX };
    assert!(huge.is_above(&nearly));
    assert!(!nearly.is_above(&huge));
}

#[test]
fn first_of_the_best_scores_wins() {
    let s = |matched: u64, total: u64| Score { matched, total };
    assert_eq!(best_score(&vec![s(1, 4), s(3, 4), s(2, 4)]), Some(1));
    assert_eq!(best_score(&vec![s(3, 4), s(6, 8), s(3, 4)]), Some(0));
    assert_eq!(best_score(&vec![s(0, 4), s(1, 9), s(1, 9)]), Some(1));
    assert_eq!(best_score(&vec![s(0, 4), s(0, 9)]), Some(0));
    assert_eq!(best_score(&vec![s(0, 9)]), Some(0));
    assert_eq!(best_score(&vec![s(0, 0), s(0, 7), s(0, 3)]), Some(1));
    assert_eq!(best_score(&vec![s(0, 0), s(0, 0)]), None);
    assert_eq!(best_score(&Vec::new()), None);
    assert_eq!(best_score(&vec![s(1, 3), s(2, 5), s(4, 9), s(4, 9), s(3, 7)]), Some(2));
}

/// A white picture of the given size with black squares at the given
/// places.
fn picture(width: u32, height: u32, black: &[(u32, u32)]) -> Vec<u8> {
    let mut data = vec![255u8; (3 * width * height) as usize];
    for &(x, y) in black {
        let at = (3 * (y * width + x)) as usize;
        data[at] = 0;
        data[at + 1] = 0;
        data[at + 2] = 0;
    }
    data
}

/// An alphabet of cells two pixels wide and one high: each character is
/// known by which of its two pixels are white.
fn alphabet(letters: &[(&str, [u8; 2])]) -> Vec<(String, GlyphMask)> {
    letters.iter().map(|(c, pixels)| (c.to_string(), mask(2, 1, pixels))).collect()
}

#[test]
fn row_is_read_cell_by_cell() {
    let chars = alphabet(&[("a", [255, 0]), ("b", [0, 255]), ("c", [255, 255])]);
    // cells of the row, from column 1 on: white-black, black-white, white-white
    let frame = RgbFrame::new(8, 2, picture(8, 2, &[(2, 1), (3, 1)])).unwrap();
    let row = GlyphRow { top: 1, right: 1, width: 2, height: 1, columns: 3 };
    assert!(row.fits_in(&frame));
    assert!(row.takes_alphabet(&chars));
    assert_eq!(row.scrape_string(&frame, &chars), "abc");
    let masks = row.glyphs(&frame);
    assert_eq!(masks.len(), 3);
    assert_eq!(masks[0].pixels(), &vec![255u8, 0]);
    assert_eq!(masks[1].pixels(), &vec![0u8, 255]);
    assert_eq!(masks[2].pixels(), &vec![255u8, 255]);
    let cells = row.crops(&frame);
    assert_eq!(cells.len(), 3);
    assert_eq!(cells[0].data(), &vec![255u8, 255, 255, 0, 0, 0]);
}

#[test]
fn first_of_equal_characters_is_read() {
    let chars = alphabet(&[("x", [255, 0]), ("y", [255, 0]), ("z", [0, 255])]);
    let frame = RgbFrame::new(2, 1, picture(2, 1, &[(1, 0)])).unwrap();
    let row = GlyphRow { top: 0, right: 0, width: 2, height: 1, columns: 1 };
    assert_eq!(row.scrape_string(&frame, &chars), "x");
}

#[test]
fn best_character_is_read_even_where_nothing_matches() {
    let chars = alphabet(&[("w", [255, 255])]);
    // the first cell is black: it agrees with the one mask in no pixel
    let frame = RgbFrame::new(4, 1, picture(4, 1, &[(0, 0), (1, 0)])).unwrap();
    let row = GlyphRow { top: 0, right: 0, width: 2, height: 1, columns: 2 };
    assert_eq!(row.scrape_string(&frame, &chars), "ww");
    // of several masks that all score nothing the first is read
    let chars = alphabet(&[("a", [255, 255]), ("b", [255, 255])]);
    let row = GlyphRow { top: 0, right: 0, width: 2, height: 1, columns: 1 };
    assert_eq!(row.scrape_string(&frame, &chars), "a");
}

#[test]
fn white_cell_against_one_black_mask_reads_that_character() {
    let chars = vec![("A".to_string(), mask(1, 1, &[0]))];
    let frame = RgbFrame::new(1, 1, vec![255, 255, 255]).unwrap();
    let row = GlyphRow { top: 0, right: 0, width: 1, height: 1, columns: 1 };
    assert_eq!(row.scrape_string(&frame, &chars), "A");
}

#[test]
fn empty_alphabet_and_cells_without_pixels_read_as_nothing() {
    let frame = RgbFrame::new(4, 1, picture(4, 1, &[])).unwrap();
    let row = GlyphRow { top: 0, right: 0, width: 2, height: 1, columns: 2 };
    assert_eq!(row.scrape_string(&frame, &Vec::new()), "");
    let flat = GlyphRow { top: 0, right: 0, width: 2, height: 0, columns: 2 };
    let chars = vec![("x".to_string(), mask(2, 0, &[]))];
    assert_eq!(flat.scrape_string(&frame, &chars), "");
}

#[test]
fn row_has_to_lie_within_the_frame() {
    let frame = RgbFrame::new(8, 2, picture(8, 2, &[])).unwrap();
    let fits = |top, right, width, height, columns| {
        GlyphRow { top, right, width, height, columns }.fits_in(&frame)
    };
    assert!(fits(0, 0, 2, 2, 4));
    assert!(!fits(0, 1, 2, 2, 4));
    assert!(!fits(1, 0, 2, 2, 4));
    assert!(fits(2, 8, 0, 0, 0));
    assert!(!fits(0, 0, u32::MAX, 1, u32::MAX));
    assert!(!fits(u32::MAX, 0, 1, u32::MAX, 1));
}

/// The configuration and the alphabet of an overlay of two rows of eight
/// cells, each cell three pixels wide and one high; the characters are
/// told apart by which of their pixels are white.
fn overlay() -> (GlyphConfig, Vec<(String, GlyphMask)>) {
    let letters: Vec<(&str, [u8; 3])> = vec![
        ("N", [255, 0, 0]),
        ("W", [0, 255, 0]),
        ("4", [0, 0, 255]),
        ("0", [255, 255, 0]),
        (".", [255, 0, 255]),
        ("7", [0, 255, 255]),
        ("1", [255, 255, 255]),
    ];
    let chars: Vec<(String, GlyphMask)> =
        letters.iter().map(|(c, pixels)| (c.to_string(), mask(3, 1, pixels))).collect();
    let gcfg = GlyphConfig::new(
        vec![
            GlyphRow { top: 1, right: 2, width: 3, height: 1, columns: 7 },
            GlyphRow { top: 3, right: 2, width: 3, height: 1, columns: 7 },
        ],
        letters
            .iter()
            .map(|(c, _)| GlyphChar { char: c.to_string(), filepath: format!("glyphs/{}.bmp", c) })
            .collect(),
    )
    .unwrap();
    (gcfg, chars)
}

/// A frame of 24 by 5 that shows the two texts in the rows of the overlay.
fn frame_showing(lat: &str, lng: &str) -> image::RgbImage {
    let (_, chars) = overlay();
    let mut frame = image::RgbImage::from_pixel(24, 5, image::Rgb([20, 40, 200]));
    for (row, text) in [(1u32, lat), (3u32, lng)] {
        for (col, c) in text.chars().enumerate() {
            let glyph = &chars.iter().find(|(name, _)| name.chars().next() == Some(c)).unwrap().1;
            for (i, &pixel) in glyph.pixels().iter().enumerate() {
                let colour = if pixel > 127 { [250, 250, 250] } else { [20, 40, 200] };
                frame.put_pixel(2 + 3 * col as u32 + i as u32, row, image::Rgb(colour));
            }
        }
    }
    frame
}

fn png_of(frame: &image::RgbImage) -> Vec<u8> {
    let mut bytes = std::io::Cursor::new(Vec::new());
    frame.write_to(&mut bytes, image::ImageFormat::Png).unwrap();
    bytes.into_inner()
}

#[test]
fn location_is_read_off_a_frame() {
    let (gcfg, chars) = overlay();
    let shown = frame_showing("N40.714", "W074.01");
    let frame = RgbFrame::new(24, 5, shown.into_raw()).unwrap();
    let read = gcfg.locate(&chars, &frame).unwrap();
    assert_eq!(read.lat, coordinate(false, 40, &[7, 1, 4]));
    assert_eq!(read.lng, coordinate(true, 74, &[0, 1]));
    assert!(gcfg.suits_frame(&chars, &frame));
}

#[test]
fn location_is_read_off_a_picture_file() {
    let (gcfg, chars) = overlay();
    let file = png_of(&frame_showing("N40.714", "W074.01"));
    let scraped = scrape_clip_location(&gcfg, &chars, Some(file));
    assert_eq!(scraped.failure, None);
    assert_eq!(degrees_of(&scraped.location.lat), 40.714);
    assert_eq!(degrees_of(&scraped.location.lng), -74.01);
}

#[test]
fn unreadable_overlay_settles_for_the_zero_location() {
    let (gcfg, chars) = overlay();
    let scraped = scrape_clip_location(&gcfg, &chars, Some(png_of(&frame_showing("4071.4", "W074.01"))));
    assert_eq!(scraped.failure, Some(GlyphError::Latitude));
    assert_eq!(scraped.location, LatLng::default());
    let scraped = scrape_clip_location(&gcfg, &chars, Some(png_of(&frame_showing("N40.714", "1111111"))));
    assert_eq!(scraped.failure, Some(GlyphError::Longitude));
    assert_eq!(scraped.location, LatLng::default());
}

#[test]
fn missing_or_broken_frame_settles_for_the_zero_location() {
    let (gcfg, chars) = overlay();
    let scraped = scrape_clip_location(&gcfg, &chars, None);
    assert_eq!(scraped.failure, Some(GlyphError::Frame));
    assert_eq!(scraped.location, LatLng::default());
    let scraped = scrape_clip_location(&gcfg, &chars, Some(b"this is no picture".to_vec()));
    assert_eq!(scraped.failure, Some(GlyphError::Decode));
    assert_eq!(scraped.location, LatLng::default());
    let scraped = scrape_clip_location(&gcfg, &chars, Some(Vec::new()));
    assert_eq!(scraped.failure, Some(GlyphError::Decode));
}

#[test]
fn configuration_has_to_suit_the_frame() {
    let (gcfg, chars) = overlay();
    let small = image::RgbImage::from_pixel(10, 5, image::Rgb([0, 0, 0]));
    let scraped = scrape_clip_location(&gcfg, &chars, Some(png_of(&small)));
    assert_eq!(scraped.failure, Some(GlyphError::Layout));
    let frame = RgbFrame::new(24, 5, frame_showing("N40.714", "W074.01").into_raw()).unwrap();
    let mut odd = overlay().1;
    odd.push(("?".to_string(), mask(2, 1, &[0, 0])));
    assert_eq!(gcfg.locate(&odd, &frame), Err(GlyphError::Layout));
    assert!(!gcfg.suits_frame(&odd, &frame));
    assert!(!gcfg.takes_alphabet(&odd));
    assert!(gcfg.takes_alphabet(&chars));
}

/// A picture of the given size whose every byte is `fill`.
fn plain(width: u32, height: u32, fill: u8) -> RgbFrame {
    RgbFrame::new(width, height, vec![fill; (3 * width * height) as usize]).unwrap()
}

/// The places of the pixels of a picture that have the given colour.
fn coloured(frame: &RgbFrame, colour: [u8; 3]) -> Vec<(u32, u32)> {
    let mut found = Vec::new();
    for y in 0..frame.height() {
        for x in 0..frame.width() {
            let at = (3 * (y * frame.width() + x)) as usize;
            if frame.data()[at..at + 3] == colour {
                found.push((x, y));
            }
        }
    }
    found
}

#[test]
fn outline_is_one_pixel_thick() {
    let drawn = plain(6, 5, 9).draw_rect_outline(Rect { x: 1, y: 1, width: 4, height: 3 }, (1, 2, 3));
    assert_eq!((drawn.width(), drawn.height()), (6, 5));
    assert_eq!(
        coloured(&drawn, [1, 2, 3]),
        vec![(1, 1), (2, 1), (3, 1), (4, 1), (1, 2), (4, 2), (1, 3), (2, 3), (3, 3), (4, 3)]
    );
    assert_eq!(coloured(&drawn, [9, 9, 9]).len(), 20);
}

#[test]
fn outline_past_the_picture_is_drawn_at_its_edge() {
    let drawn = plain(4, 3, 9).draw_rect_outline(Rect { x: 2, y: 1, width: 10, height: 10 }, (1, 2, 3));
    assert_eq!(coloured(&drawn, [1, 2, 3]), vec![(2, 1), (3, 1), (2, 2), (3, 2)]);
    let drawn = plain(4, 3, 9).draw_rect_outline(Rect { x: 7, y: 0, width: 2, height: 2 }, (1, 2, 3));
    assert_eq!(coloured(&drawn, [1, 2, 3]), vec![(3, 0), (3, 1)]);
    let drawn = plain(4, 3, 9)
        .draw_rect_outline(Rect { x: u32::MAX, y: u32::MAX, width: u32::MAX, height: u32::MAX }, (1, 2, 3));
    assert_eq!(coloured(&drawn, [1, 2, 3]), vec![(3, 2)]);
}

#[test]
fn rectangle_without_pixels_leaves_no_trace() {
    let drawn = plain(4, 3, 9).draw_rect_outline(Rect { x: 1, y: 1, width: 0, height: 2 }, (1, 2, 3));
    assert_eq!(drawn.data(), plain(4, 3, 9).data());
    let drawn = plain(4, 3, 9).draw_rect_outline(Rect { x: 9, y: 1, width: 2, height: 0 }, (1, 2, 3));
    assert_eq!(drawn.data(), plain(4, 3, 9).data());
    let drawn = plain(0, 3, 9).draw_rect_outline(Rect { x: 0, y: 0, width: 2, height: 2 }, (1, 2, 3));
    assert!(drawn.data().is_empty());
}

#[test]
fn single_line_and_single_pixel_are_drawn() {
    let drawn = plain(5, 5, 9).draw_rect_outline(Rect { x: 1, y: 2, width: 3, height: 1 }, (1, 2, 3));
    assert_eq!(coloured(&drawn, [1, 2, 3]), vec![(1, 2), (2, 2), (3, 2)]);
    let drawn = plain(5, 5, 9).draw_rect_outline(Rect { x: 4, y: 4, width: 1, height: 1 }, (1, 2, 3));
    assert_eq!(coloured(&drawn, [1, 2, 3]), vec![(4, 4)]);
}

#[test]
fn every_cell_is_outlined_in_red() {
    let gcfg = GlyphConfig::new(
        vec![
            GlyphRow { top: 0, right: 1, width: 3, height: 3, columns: 2 },
            GlyphRow { top: 4, right: 0, width: 2, height: 1, columns: 1 },
        ],
        Vec::new(),
    )
    .unwrap();
    let drawn = gcfg.annotate_image(plain(8, 5, 9));
    let mut expected = vec![
        (1, 0), (2, 0), (3, 0), (4, 0), (5, 0), (6, 0),
        (1, 1), (3, 1), (4, 1), (6, 1),
        (1, 2), (2, 2), (3, 2), (4, 2), (5, 2), (6, 2),
        (0, 4), (1, 4),
    ];
    expected.sort_by_key(|&(x, y)| (y, x));
    assert_eq!(coloured(&drawn, [255, 0, 0]), expected);
    let row = gcfg.glyph_rows()[0];
    assert_eq!(row.rect_of_cell(1), Rect { x: 4, y: 0, width: 3, height: 3 });
    let far = GlyphRow { top: 0, right: u32::MAX, width: 3, height: 3, columns: 2 };
    assert_eq!(far.rect_of_cell(1), Rect { x: u32::MAX, y: 0, width: 3, height: 3 });
}

#[test]
fn seventeen_parts_of_twenty_suffice() {
    assert!(Score { matched: 17, total: 20 }.suffices());
    assert!(Score { matched: 85, total: 100 }.suffices());
    assert!(!Score { matched: 84, total: 100 }.suffices());
    assert!(!Score { matched: 16, total: 20 }.suffices());
    assert!(Score { matched: 20, total: 20 }.suffices());
    assert!(Score { matched: u64::MAX, total: u64::MAX }.suffices());
}

#[test]
fn masks_are_grouped_by_similarity() {
    // twenty pixels, all white: one differing pixel leaves 285 of 300
    let base = vec![255u8; 20];
    let mut near = base.clone();
    near[0] = 0;
    let mut far = base.clone();
    for pixel in far.iter_mut().take(4) {
        *pixel = 0;
    }
    let mut groups: Vec<GlyphMask> = Vec::new();
    assert_eq!(mask(5, 4, &base).group_of(&groups), None);
    assert_eq!(assign_group(&mut groups, mask(5, 4, &base)), 0);
    assert_eq!(assign_group(&mut groups, mask(5, 4, &near)), 0);
    assert_eq!(groups.len(), 1);
    // four differing pixels leave 240 of 300, which is too few
    assert_eq!(assign_group(&mut groups, mask(5, 4, &far)), 1);
    assert_eq!(groups.len(), 2);
    assert_eq!(groups[1].pixels(), &far);
    // a mask of another size belongs to no group
    assert_eq!(assign_group(&mut groups, mask(4, 5, &base)), 2);
    assert_eq!(mask(5, 4, &far).group_of(&groups), Some(1));
    assert_eq!(mask(5, 4, &base).group_of(&groups), Some(0));
}

#[test]
fn configuration_has_two_rows() {
    let row = GlyphRow { top: 0, right: 0, width: 1, height: 1, columns: 1 };
    assert!(GlyphConfig::new(Vec::new(), Vec::new()).is_none());
    assert!(GlyphConfig::new(vec![row], Vec::new()).is_none());
    assert!(GlyphConfig::new(vec![row, row, row], Vec::new()).is_none());
    let gcfg = GlyphConfig::new(
        vec![row, row],
        vec![GlyphChar { char: "7".to_string(), filepath: "glyphs/7.bmp".to_string() }],
    )
    .unwrap();
    assert_eq!(gcfg.glyph_rows(), &vec![row, row]);
    assert_eq!(gcfg.glyph_chars().len(), 1);
    assert_eq!(gcfg.glyph_chars()[0].char, "7");
    assert_eq!(gcfg.glyph_chars()[0].filepath, "glyphs/7.bmp");
}

#[test]
fn location_is_read_off_a_decoded_picture() {
    let (gcfg, chars) = overlay();
    let shown = frame_showing("N40.714", "W074.01");
    let scraped = scrape_picture(&gcfg, &chars, Some((24, 5, shown.clone().into_raw())));
    assert_eq!(scraped.failure, None);
    assert_eq!(scraped.location.lat, coordinate(false, 40, &[7, 1, 4]));
    assert_eq!(scraped.location.lng, coordinate(true, 74, &[0, 1]));
    // bytes past the last pixel are left aside
    let mut longer = shown.clone().into_raw();
    longer.extend_from_slice(&[1, 2, 3]);
    let scraped = scrape_picture(&gcfg, &chars, Some((24, 5, longer)));
    assert_eq!(scraped.failure, None);
    assert_eq!(degrees_of(&scraped.location.lat), 40.714);
}

#[test]
fn picture_that_is_missing_or_short_settles_for_the_zero_location() {
    let (gcfg, chars) = overlay();
    let scraped = scrape_picture(&gcfg, &chars, None);
    assert_eq!(scraped.failure, Some(GlyphError::Decode));
    assert_eq!(scraped.location, LatLng::default());
    let mut short = frame_showing("N40.714", "W074.01").into_raw();
    short.pop();
    let scraped = scrape_picture(&gcfg, &chars, Some((24, 5, short)));
    assert_eq!(scraped.failure, Some(GlyphError::Decode));
    let scraped = scrape_picture(&gcfg, &chars, Some((u32::MAX, u32::MAX, Vec::new())));
    assert_eq!(scraped.failure, Some(GlyphError::Decode));
    let small = frame_showing("N40.714", "W074.01").into_raw();
    let scraped = scrape_picture(&gcfg, &chars, Some((12, 10, small)));
    assert_eq!(scraped.failure, Some(GlyphError::Layout));
    assert_eq!(scraped.location, LatLng::default());
}
