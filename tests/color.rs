use rayst::color::hex_channels;

#[test]
fn black_color_can_be_created_from_hex_value() {
    assert_eq!((0, 0, 0), hex_channels(0x000000));
}

#[test]
fn red_color_can_be_created_from_hex_value() {
    assert_eq!((255, 0, 0), hex_channels(0xFF0000));
}

#[test]
fn green_color_can_be_created_from_hex_value() {
    assert_eq!((0, 255, 0), hex_channels(0x00FF00));
}

#[test]
fn blue_color_can_be_created_from_hex_value() {
    assert_eq!((0, 0, 255), hex_channels(0x0000FF));
}

#[test]
fn arbitrary_color_can_be_created_from_hex_value() {
    assert_eq!((0xF2, 0xA1, 0x12), hex_channels(0xF2A112));
}

#[test]
fn bits_above_the_color_are_ignored() {
    assert_eq!((0x8C, 0x11, 0xD9), hex_channels(0xAB8C11D9));
}
