use heater::Canvas;

#[test]
fn new_canvas_is_blank() {
    let c = Canvas::new(128, 64);
    assert_eq!(c.width(), 128);
    assert_eq!(c.height(), 64);
    for y in 0..64 {
        for x in 0..128 {
            assert!(!c.get_pixel(x, y));
        }
    }
}

#[test]
fn set_pixel_reads_back_and_leaves_others() {
    let mut c = Canvas::new(4, 3);
    c.set_pixel(2, 1, true);
    for y in 0..3 {
        for x in 0..4 {
            assert_eq!(c.get_pixel(x, y), x == 2 && y == 1);
        }
    }
    c.set_pixel(2, 1, false);
    assert!(!c.get_pixel(2, 1));
}

#[test]
fn set_pixel_off_grid_is_ignored() {
    let mut c = Canvas::new(4, 3);
    c.set_pixel(4, 0, true);
    c.set_pixel(0, 3, true);
    c.set_pixel(u32::MAX, u32::MAX, true);
    for y in 0..3 {
        for x in 0..4 {
            assert!(!c.get_pixel(x, y));
        }
    }
}
