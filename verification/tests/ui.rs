use heater::font::{font_bit, font_index};
use heater::{blit_char, Bounds, Canvas, Font, Ui, Vec2};

fn lit(ui: &Ui) -> Vec<(u32, u32)> {
    let mut v = Vec::new();
    for y in 0..ui.canvas.height() {
        for x in 0..ui.canvas.width() {
            if ui.canvas.get_pixel(x, y) {
                v.push((x, y));
            }
        }
    }
    v
}

fn block(x0: u32, y0: u32, w: u32, h: u32) -> Vec<(u32, u32)> {
    let mut v = Vec::new();
    for y in y0..y0 + h {
        for x in x0..x0 + w {
            v.push((x, y));
        }
    }
    v
}

fn sorted(mut v: Vec<(u32, u32)>) -> Vec<(u32, u32)> {
    v.sort_by_key(|&(x, y)| (y, x));
    v.dedup();
    v
}

#[test]
fn ui_new_covers_whole_canvas() {
    let font = Font::new(vec![0; 8]);
    let ui = Ui::new(Canvas::new(128, 64), &font);
    assert_eq!(ui.bounds, Bounds::new((0, 0), (128, 64)));
}

#[test]
fn ui_set_pixel_is_relative_and_clipped() {
    let font = Font::new(vec![0; 8]);
    let mut ui = Ui::new(Canvas::new(10, 10), &font);
    ui.bounds = Bounds::new((2, 2), (4, 4));
    ui.set_pixel(0, 0, true);
    ui.set_pixel(2, 2, true);
    ui.set_pixel(3, 0, true);
    ui.set_pixel(0, 3, true);
    assert_eq!(lit(&ui), vec![(2, 2), (4, 4)]);
}

#[test]
fn ui_space_moves_top_left_corner() {
    let font = Font::new(vec![0; 8]);
    let mut ui = Ui::new(Canvas::new(10, 10), &font);
    ui.space(Vec2::splat(2));
    ui.space_y(3);
    assert_eq!(ui.bounds, Bounds::new((2, 5), (10, 10)));
    ui.set_pixel(1, 1, true);
    assert_eq!(lit(&ui), vec![(3, 6)]);
}

#[test]
fn frame_draws_outline_and_runs_inside() {
    let font = Font::new(vec![0; 8]);
    let mut ui = Ui::new(Canvas::new(10, 10), &font);
    let before = ui.bounds;
    let mut inner_bounds = None;
    ui.frame(Bounds::new((1, 1), (6, 5)), |u| {
        inner_bounds = Some(u.bounds);
        u.set_pixel(1, 1, true);
    });
    assert_eq!(ui.bounds, before);
    assert_eq!(inner_bounds, Some(Bounds::new((2, 2), (5, 4))));
    let mut expected = vec![(3, 3)];
    for x in 2..=5 {
        expected.push((x, 1));
        expected.push((x, 5));
    }
    for y in 2..=4 {
        expected.push((1, y));
        expected.push((6, y));
    }
    expected.extend([(2, 2), (2, 4), (5, 2), (5, 4)]);
    assert_eq!(lit(&ui), sorted(expected));
}

#[test]
fn frame_is_drawn_relative_to_current_bounds() {
    let font = Font::new(vec![0; 8]);
    let mut ui = Ui::new(Canvas::new(12, 12), &font);
    ui.bounds = Bounds::new((3, 3), (12, 12));
    ui.frame(Bounds::new((0, 0), (2, 2)), |_| {});
    // top/bottom edge x = 1, left/right edge y = 1, inner corners all (1, 1)
    assert_eq!(lit(&ui), vec![(4, 3), (3, 4), (4, 4), (5, 4), (4, 5)]);
}

#[test]
fn progress_bar_top_row_is_solid() {
    let font = Font::new(vec![0; 8]);
    let mut ui = Ui::new(Canvas::new(10, 10), &font);
    ui.bounds = Bounds::new((0, 0), (3, 5));
    ui.draw_progress_vertical(3);
    let mut expected = Vec::new();
    for y in [5u32, 4] {
        for x in 0..=3u32 {
            if x % 2 == y % 2 {
                expected.push((x, y));
            }
        }
    }
    for x in 0..=3 {
        expected.push((x, 3));
    }
    assert_eq!(lit(&ui), sorted(expected));
}

#[test]
fn progress_bar_taller_than_bounds_is_all_checkered() {
    let font = Font::new(vec![0; 8]);
    let mut ui = Ui::new(Canvas::new(10, 10), &font);
    ui.bounds = Bounds::new((1, 1), (2, 3));
    ui.draw_progress_vertical(100);
    let mut expected = Vec::new();
    for y in 0..=2u32 {
        for x in 0..=1u32 {
            if x % 2 == y % 2 {
                expected.push((x + 1, y + 1));
            }
        }
    }
    assert_eq!(lit(&ui), sorted(expected));
}

#[test]
fn progress_bar_of_zero_height_draws_nothing() {
    let font = Font::new(vec![0; 8]);
    let mut ui = Ui::new(Canvas::new(10, 10), &font);
    ui.draw_progress_vertical(0);
    assert!(lit(&ui).is_empty());
}

#[test]
fn dashed_line_starts_off() {
    let font = Font::new(vec![0; 8]);
    let mut ui = Ui::new(Canvas::new(10, 10), &font);
    ui.draw_line_horizontal((1, 2), 5);
    assert_eq!(lit(&ui), vec![(2, 2), (4, 2)]);
}

#[test]
fn font_index_table() {
    assert_eq!(font_index('0'), Some(0));
    assert_eq!(font_index('9'), Some(9));
    assert_eq!(font_index('A'), Some(10));
    assert_eq!(font_index('Z'), Some(35));
    assert_eq!(font_index('.'), Some(36));
    assert_eq!(font_index('°'), Some(37));
    assert_eq!(font_index('%'), Some(38));
    assert_eq!(font_index(':'), Some(39));
    assert_eq!(font_index('\u{E000}'), Some(40));
    assert_eq!(font_index('\u{E008}'), Some(48));
    assert_eq!(font_index('a'), None);
    assert_eq!(font_index(' '), None);
    assert_eq!(font_index('\n'), None);
}

#[test]
fn font_bit_is_lsb_first() {
    let font = Font::new(vec![0b0000_0101, 0x80]);
    assert!(font_bit(&font, 0));
    assert!(!font_bit(&font, 1));
    assert!(font_bit(&font, 2));
    assert!(!font_bit(&font, 8));
    assert!(font_bit(&font, 15));
}

#[test]
fn blit_char_draws_glyph_bits() {
    // glyph 1 ('1') starts at bit 25, i.e. bit 1 of byte 3: only its
    // top-left pixel and its pixel (2, 1) (bit 25 + 7 = 32) are on
    let mut bytes = vec![0u8; 8];
    bytes[3] = 0x02;
    bytes[4] = 0x01;
    let font = Font::new(bytes);
    let mut ui = Ui::new(Canvas::new(20, 20), &font);
    blit_char(&mut ui, Vec2::new(4, 6), false, '1');
    assert_eq!(lit(&ui), vec![(4, 6), (6, 7)]);
}

#[test]
fn blit_char_inverted_has_border() {
    let font = Font::new(vec![0xFF; 8]);
    let mut ui = Ui::new(Canvas::new(20, 20), &font);
    blit_char(&mut ui, Vec2::new(2, 2), true, '0');
    let mut expected = Vec::new();
    for i in 2..7 {
        expected.extend([(1, i), (7, i), (i, 1), (i, 7)]);
    }
    assert_eq!(lit(&ui), sorted(expected));
}

#[test]
fn blit_char_without_glyph_draws_nothing() {
    let font = Font::new(vec![0xFF; 8]);
    let mut ui = Ui::new(Canvas::new(20, 20), &font);
    blit_char(&mut ui, Vec2::new(0, 0), true, 'a');
    assert!(lit(&ui).is_empty());
}

#[test]
fn draw_string_places_glyphs_side_by_side() {
    let font = Font::new(vec![0xFF; 200]);
    let mut ui = Ui::new(Canvas::new(40, 20), &font);
    ui.draw_string((1, 2), "AB");
    let mut expected = block(1, 2, 5, 5);
    expected.extend(block(6, 2, 5, 5));
    assert_eq!(lit(&ui), sorted(expected));
}

#[test]
fn draw_string_newline_keeps_advancing() {
    let font = Font::new(vec![0xFF; 200]);
    let mut ui = Ui::new(Canvas::new(40, 20), &font);
    ui.draw_string((0, 0), "1\n2");
    let mut expected = block(0, 0, 5, 5);
    expected.extend(block(5, 5, 5, 5));
    assert_eq!(lit(&ui), sorted(expected));
}

#[test]
fn draw_string_inverted_swaps_pixels() {
    let font = Font::new(vec![0xFF; 200]);
    let mut ui = Ui::new(Canvas::new(40, 20), &font);
    ui.draw_string_inverted((1, 1), "S");
    let mut expected = Vec::new();
    for i in 1..6 {
        expected.extend([(0, i), (6, i), (i, 0), (i, 6)]);
    }
    assert_eq!(lit(&ui), sorted(expected));
}

#[test]
fn draw_int_counts_digits() {
    let font = Font::new(vec![0; 200]);
    let mut ui = Ui::new(Canvas::new(80, 10), &font);
    assert_eq!(ui.draw_int((0, 0), 0), 1);
    assert_eq!(ui.draw_int((0, 0), 7), 1);
    assert_eq!(ui.draw_int((0, 0), 10), 2);
    assert_eq!(ui.draw_int((0, 0), 12345), 5);
    assert_eq!(ui.draw_int((0, 0), u32::MAX), 10);
}

#[test]
fn draw_int_writes_the_digits_in_order() {
    // glyph n has only its pixel (n, 0) on for n < 5, so each digit shows
    // where it was written
    let mut bytes = vec![0u8; 40];
    for n in 0..5u32 {
        let bit = 25 * n + n;
        bytes[(bit / 8) as usize] |= 1 << (bit % 8);
    }
    let font = Font::new(bytes);
    let mut ui = Ui::new(Canvas::new(80, 10), &font);
    assert_eq!(ui.draw_int((2, 1), 4102), 4);
    assert_eq!(lit(&ui), vec![(2 + 4, 1), (7 + 1, 1), (12, 1), (17 + 2, 1)]);
}

#[test]
fn draw_value_lays_out_prefix_number_suffix() {
    let font = Font::new(vec![0xFF; 200]);
    let mut ui = Ui::new(Canvas::new(60, 10), &font);
    ui.draw_value((1, 1), "T", "C", 37);
    let mut expected = Vec::new();
    for k in 0..4 {
        expected.extend(block(1 + 5 * k, 1, 5, 5));
    }
    assert_eq!(lit(&ui), sorted(expected));
}

#[test]
fn draw_value_prefix_counts_characters_without_glyphs() {
    let font = Font::new(vec![0xFF; 200]);
    let mut ui = Ui::new(Canvas::new(60, 10), &font);
    ui.draw_value((0, 0), " ", "", 5);
    assert_eq!(lit(&ui), block(5, 0, 5, 5));
}

#[test]
fn draw_value_is_draw_string_of_joined_text() {
    let bytes: Vec<u8> = (0..200u32).map(|i| (i * 37 + 11) as u8).collect();
    let font = Font::new(bytes);
    let mut by_value = Ui::new(Canvas::new(60, 10), &font);
    by_value.draw_value((2, 1), "T", "%", 407);
    let mut by_text = Ui::new(Canvas::new(60, 10), &font);
    by_text.draw_string((2, 1), "T407%");
    assert_eq!(lit(&by_value), lit(&by_text));
    assert!(!lit(&by_value).is_empty());
}
