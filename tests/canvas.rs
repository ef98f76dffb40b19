use rayst::canvas::Canvas;

type Rgb = (f64, f64, f64);

const BLACK: Rgb = (0.0, 0.0, 0.0);
const RED: Rgb = (1.0, 0.0, 0.0);

#[test]
fn a_canvas_stores_its_width() {
    let c = Canvas::new(10, 20, BLACK);
    assert_eq!(10, c.width());
}

#[test]
fn a_canvas_stored_its_height() {
    let c = Canvas::new(10, 20, BLACK);
    assert_eq!(20, c.height());
}

#[test]
fn a_new_canvas_has_all_black_pixels() {
    let c = Canvas::new(10, 20, BLACK);
    assert_eq!(200, c.pixels().len());
    assert!(c.pixels().iter().all(|&p| p == BLACK));
}

#[test]
fn a_canvas_pixel_can_be_written_to() {
    let mut c = Canvas::new(10, 20, BLACK);
    c.write_pixel(2, 3, RED);
    assert_eq!(RED, c.pixel_at(2, 3));
    assert_eq!(RED, c.pixels()[3 * 10 + 2]);
    assert_eq!(BLACK, c.pixel_at(3, 2));
}

#[test]
fn a_canvas_can_enumerate_pixels() {
    let mut c = Canvas::new(5, 5, BLACK);
    for row in 0..c.height() {
        for col in 0..c.width() {
            if row == col {
                c.write_pixel(col, row, RED);
            }
        }
    }
    assert_eq!(RED, c.pixel_at(1, 1));
    assert_ne!(RED, c.pixel_at(0, 1));
}
