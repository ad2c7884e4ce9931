use heater::panel::{blit_char, blit_int, blit_str, bounds_height, draw_progress_vertical, font_index, frame};
use heater::{Canvas, Font};

fn lit(c: &Canvas) -> Vec<(u32, u32)> {
    let mut v = Vec::new();
    for y in 0..c.height() {
        for x in 0..c.width() {
            if c.get_pixel(x, y) {
                v.push((x, y));
            }
        }
    }
    v
}

fn sorted(mut v: Vec<(u32, u32)>) -> Vec<(u32, u32)> {
    v.sort_by_key(|&(x, y)| (y, x));
    v.dedup();
    v
}

fn block(x0: u32, y0: u32, w: u32, h: u32) -> Vec<(u32, u32)> {
    let mut v = Vec::new();
    for y in y0..y0 + h {
        for x in x0..x0 + w {
            v.push((x, y));
        }
    }
    v
}

#[test]
fn small_font_index_table() {
    assert_eq!(font_index('0'), Some(0));
    assert_eq!(font_index('Z'), Some(35));
    assert_eq!(font_index('.'), Some(36));
    assert_eq!(font_index('°'), Some(37));
    assert_eq!(font_index('%'), Some(38));
    assert_eq!(font_index(':'), None);
    assert_eq!(font_index('\u{E000}'), None);
    assert_eq!(font_index('w'), None);
}

#[test]
fn panel_bounds_height() {
    assert_eq!(bounds_height([(0, 0), (6, 63)]), 63);
    assert_eq!(bounds_height([(8, 32), (50, 63)]), 31);
}

#[test]
fn panel_frame_outline() {
    let mut c = Canvas::new(10, 10);
    frame(&mut c, [(1, 1), (6, 5)]);
    let mut expected = Vec::new();
    for x in 2..=5 {
        expected.push((x, 1));
        expected.push((x, 5));
    }
    for y in 2..=4 {
        expected.push((1, y));
        expected.push((6, y));
    }
    expected.extend([(2, 2), (2, 4), (5, 2), (5, 4)]);
    assert_eq!(lit(&c), sorted(expected));
}

#[test]
fn panel_progress_is_checkered_from_bottom() {
    let mut c = Canvas::new(10, 10);
    draw_progress_vertical(&mut c, [(1, 2), (3, 6)], 2);
    let mut expected = Vec::new();
    for y in [5u32, 6] {
        for x in 1..=3u32 {
            if x % 2 == y % 2 {
                expected.push((x, y));
            }
        }
    }
    assert_eq!(lit(&c), sorted(expected));
}

#[test]
fn panel_blit_char_and_str() {
    let font = Font::new(vec![0xFF; 200]);
    let mut c = Canvas::new(40, 20);
    blit_char(&mut c, &font, (0, 0), false, 'H');
    assert_eq!(lit(&c), block(0, 0, 5, 5));
    let mut c = Canvas::new(40, 20);
    blit_str(&mut c, &font, (2, 3), false, "W:%");
    let mut expected = block(2, 3, 5, 5);
    expected.extend(block(12, 3, 5, 5));
    assert_eq!(lit(&c), sorted(expected));
}

#[test]
fn panel_blit_inverted_char() {
    let font = Font::new(vec![0xFF; 200]);
    let mut c = Canvas::new(20, 20);
    blit_char(&mut c, &font, (1, 1), true, '.');
    let mut expected = Vec::new();
    for i in 1..6 {
        expected.extend([(0, i), (6, i), (i, 0), (i, 6)]);
    }
    assert_eq!(lit(&c), sorted(expected));
}

#[test]
fn panel_blit_int_digits() {
    let font = Font::new(vec![0xFF; 200]);
    let mut c = Canvas::new(40, 20);
    assert_eq!(blit_int(&mut c, &font, (10, 34 - 30), false, 600), 3);
    let mut expected = block(10, 4, 15, 5);
    expected.sort_by_key(|&(x, y)| (y, x));
    assert_eq!(lit(&c), expected);
}

#[test]
fn panel_blit_str_in_two_parts_is_one_text() {
    let bytes: Vec<u8> = (0..200u32).map(|i| (i * 37 + 11) as u8).collect();
    let font = Font::new(bytes);
    let mut whole = Canvas::new(40, 20);
    blit_str(&mut whole, &font, (3, 4), true, "AB.9");
    let mut parts = Canvas::new(40, 20);
    blit_str(&mut parts, &font, (3, 4), true, "AB");
    blit_str(&mut parts, &font, (3 + 5 * 2, 4), true, ".9");
    assert_eq!(lit(&whole), lit(&parts));
    assert!(!lit(&whole).is_empty());

    // a newline in the first part moves the second part's start
    let mut whole = Canvas::new(40, 20);
    blit_str(&mut whole, &font, (1, 1), false, "A\nB7");
    let mut parts = Canvas::new(40, 20);
    blit_str(&mut parts, &font, (1, 1), false, "A\nB");
    blit_str(&mut parts, &font, (11, 6), false, "7");
    assert_eq!(lit(&whole), lit(&parts));
}
