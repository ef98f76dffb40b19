use rayst::canvas::Canvas;
use rayst::ppm::{binary_ppm_bytes, break_line, plain_ppm_bytes, push_decimal, rgb_bytes};

type Bytes = (u8, u8, u8);

fn plain(c: &Canvas<Bytes>) -> String {
    let rgb = rgb_bytes(c.pixels());
    String::from_utf8(plain_ppm_bytes(c.width(), c.height(), &rgb)).unwrap()
}

#[test]
fn a_canvas_can_construct_a_ppm_header() {
    let c = Canvas::new(5, 3, (0, 0, 0));
    let ppm = plain(&c);
    let first_3_lines: Vec<&str> = ppm.lines().take(3).collect();
    assert_eq!(vec!["P3", "5 3", "255"], first_3_lines);
}

#[test]
fn a_canvas_can_output_ppm_data() {
    // Colors (1.5, 0, 0), (0, 0.5, 0) and (-0.5, 0, 1) as clamped bytes.
    let mut c = Canvas::new(5, 3, (0, 0, 0));
    c.write_pixel(0, 0, (255, 0, 0));
    c.write_pixel(2, 1, (0, 128, 0));
    c.write_pixel(4, 2, (0, 0, 255));
    let ppm = plain(&c);
    let lines_4_to_6: Vec<&str> = ppm.lines().skip(3).take(3).collect();
    let expected = vec![
        "255 0 0 0 0 0 0 0 0 0 0 0 0 0 0",
        "0 0 0 0 0 0 0 128 0 0 0 0 0 0 0",
        "0 0 0 0 0 0 0 0 0 0 0 0 0 0 255",
    ];
    assert_eq!(expected, lines_4_to_6);
}

#[test]
fn long_lines_in_ppm_files_should_be_split() {
    // Color (1.0, 0.8, 0.6) as bytes.
    let c = Canvas::new(10, 2, (255, 204, 153));
    let ppm = plain(&c);
    let lines_4_to_7: Vec<&str> = ppm.lines().skip(3).take(4).collect();
    let expected = vec![
        "255 204 153 255 204 153 255 204 153 255 204 153 255 204 153 255 204",
        "153 255 204 153 255 204 153 255 204 153 255 204 153",
        "255 204 153 255 204 153 255 204 153 255 204 153 255 204 153 255 204",
        "153 255 204 153 255 204 153 255 204 153 255 204 153",
    ];
    assert_eq!(expected, lines_4_to_7);
    assert!(ppm.lines().all(|l| l.len() <= 70));
}

#[test]
fn ppm_are_terminated_by_a_newline_character() {
    let c = Canvas::new(5, 3, (0, 0, 0));
    let ppm = plain(&c);
    assert_eq!(Some('\n'), ppm.chars().last());
}

#[test]
fn a_whole_small_image_is_encoded_exactly() {
    let mut c = Canvas::new(2, 1, (0, 0, 0));
    c.write_pixel(1, 0, (1, 20, 255));
    assert_eq!("P3\n2 1\n255\n0 0 0 1 20 255\n", plain(&c));
}

#[test]
fn an_image_without_rows_has_an_empty_body() {
    let c: Canvas<Bytes> = Canvas::new(4, 0, (0, 0, 0));
    assert_eq!("P3\n4 0\n255\n\n", plain(&c));
}

#[test]
fn binary_ppm_holds_the_header_then_raw_bytes() {
    let mut c = Canvas::new(2, 1, (0, 0, 0));
    c.write_pixel(0, 0, (10, 20, 30));
    let rgb = rgb_bytes(c.pixels());
    assert_eq!(vec![10, 20, 30, 0, 0, 0], rgb);
    let mut expected = b"P6\n2 1\n255\n".to_vec();
    expected.extend_from_slice(&[10, 20, 30, 0, 0, 0]);
    assert_eq!(expected, binary_ppm_bytes(2, 1, &rgb));
}

#[test]
fn decimals_are_written_most_significant_digit_first() {
    let mut out = b"x".to_vec();
    push_decimal(&mut out, 0);
    push_decimal(&mut out, 1200);
    assert_eq!(b"x01200".to_vec(), out);
}

#[test]
fn a_short_line_is_left_alone() {
    let s = b"12 34".to_vec();
    assert_eq!(s, break_line(&s, 6));
}

#[test]
fn a_line_is_broken_at_its_last_space_before_the_limit() {
    let s = b"12 34 56 78".to_vec();
    assert_eq!(b"12 34\n56 78".to_vec(), break_line(&s, 6));
    assert_eq!(b"12 34 56\n78".to_vec(), break_line(&s, 9));
}

#[test]
fn a_line_without_spaces_loses_the_byte_at_the_limit() {
    let s = b"abcdefg".to_vec();
    assert_eq!(b"ab\nde\ng".to_vec(), break_line(&s, 3));
}
