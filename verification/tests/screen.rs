use heater::panel::{blit_int, blit_str, draw_compact, draw_progress_vertical, frame};
use heater::screen::{draw_screen, CHART_COLUMNS};
use heater::{Bounds, Canvas, Font, State, Ui, Vec2};

fn test_font() -> Font {
    // a pseudo-random bitmap, so that every glyph differs
    let mut bytes = Vec::new();
    let mut v: u32 = 12345;
    for _ in 0..200 {
        v = v.wrapping_mul(1103515245).wrapping_add(12345);
        bytes.push((v >> 16) as u8);
    }
    Font::new(bytes)
}

fn pixels(c: &Canvas) -> Vec<bool> {
    let mut v = Vec::new();
    for y in 0..c.height() {
        for x in 0..c.width() {
            v.push(c.get_pixel(x, y));
        }
    }
    v
}

#[test]
fn compact_screen_is_the_drawing_sequence() {
    let font = test_font();
    let mut a = Canvas::new(128, 64);
    draw_compact(&mut a, &font, 240, 40, 25);

    let mut b = Canvas::new(128, 64);
    let n = blit_int(&mut b, &font, (10, 34), false, 240);
    blit_str(&mut b, &font, (10 + 5 * n, 34), false, "W");
    let n = blit_int(&mut b, &font, (10, 41), false, 40);
    blit_str(&mut b, &font, (10 + 5 * n, 41), false, "%");
    blit_str(&mut b, &font, (11, 48), true, "HEATING");
    draw_progress_vertical(&mut b, [(0, 0), (6, 63)], 25);
    for panel in [[(0, 0), (6, 63)], [(8, 0), (50, 30)], [(8, 32), (50, 63)]] {
        frame(&mut b, panel);
    }
    assert_eq!(pixels(&a), pixels(&b));
}

#[test]
fn main_screen_is_the_framed_layout() {
    let font = test_font();
    let chart: Vec<u32> = (0..CHART_COLUMNS as u32).map(|x| (x * 7) % 40).collect();
    let mut a = Ui::new(Canvas::new(128, 64), &font);
    draw_screen(&mut a, 125, 37, 37, 30, State::Holding, 240, 40, 25, 24, 12, &chart);

    let mut b = Ui::new(Canvas::new(128, 64), &font);
    b.frame(Bounds::new((52, 0), (127, 28)), |ui| {
        ui.space(Vec2::splat(2));
        ui.draw_string_inverted((1, 1), "STATUS");
        ui.draw_string_inverted((55, 1), "S");
        ui.draw_string_inverted((64, 1), "\u{E006}");
        ui.space_y(9);
        ui.draw_value((0, 0), "\u{E000}\u{E008}", "M", 2);
        ui.space_y(9);
        ui.draw_value((0, 0), "\u{E007}\u{E008}", "%", 37);
    });
    b.frame(Bounds::new((0, 0), (6, 63)), |ui| ui.draw_progress_vertical(25));
    b.frame(Bounds::new((8, 0), (50, 35)), |ui| {
        ui.space(Vec2::splat(2));
        ui.draw_string_inverted((1, 1), "THERMO");
        ui.space_y(9);
        ui.draw_value((0, 0), "T\u{E004}\u{E005}", "°C", 37);
        ui.space_y(7);
        ui.draw_value((0, 0), "T\u{E003}\u{E005}", "°C", 30);
        ui.space_y(7);
        ui.draw_value((0, 0), "T\u{E002}\u{E005}", "°C", 30);
    });
    b.frame(Bounds::new((8, 37), (50, 63)), |ui| {
        ui.space(Vec2::splat(2));
        ui.draw_string_inverted((1, 1), "HOLDING");
        ui.space_y(9);
        ui.draw_value((0, 0), "P\u{E005}", "W", 240);
        ui.space_y(7);
        ui.draw_value((0, 0), "U\u{E005}", "%", 40);
    });
    b.frame(Bounds::new((52, 30), (127, 63)), |ui| {
        let width = ui.bounds.width();
        assert_eq!(width as usize, CHART_COLUMNS);
        ui.draw_line_horizontal((0, 24), width);
        ui.draw_line_horizontal((0, 12), width);
        for x in 0..width {
            ui.set_pixel(x, chart[x as usize], true);
        }
        ui.draw_string_inverted((36, 24), "HISTORY");
    });
    assert_eq!(a.bounds, b.bounds);
    assert_eq!(pixels(&a.canvas), pixels(&b.canvas));
}

#[test]
fn draw_value_is_the_concatenated_text() {
    let font = test_font();
    let mut a = Ui::new(Canvas::new(128, 20), &font);
    a.draw_value((3, 4), "P\u{E005}", "W", 4096);
    let mut b = Ui::new(Canvas::new(128, 20), &font);
    b.draw_string((3, 4), "P\u{E005}4096W");
    assert_eq!(pixels(&a.canvas), pixels(&b.canvas));
}

#[test]
fn blit_str_of_two_parts_is_blit_str_of_each() {
    let font = test_font();
    let mut a = Canvas::new(128, 20);
    blit_str(&mut a, &font, (2, 3), true, "HEAT12%");
    let mut b = Canvas::new(128, 20);
    blit_str(&mut b, &font, (2, 3), true, "HEA");
    blit_str(&mut b, &font, (2 + 5 * 3, 3), true, "T12%");
    assert_eq!(pixels(&a), pixels(&b));
}

#[test]
fn empty_progress_bar_needs_no_width() {
    let font = test_font();
    let mut ui = Ui::new(Canvas::new(10, 10), &font);
    ui.bounds = Bounds::new((5, 0), (2, 4));
    ui.draw_progress_vertical(0);
    assert!(pixels(&ui.canvas).iter().all(|&p| !p));
}
