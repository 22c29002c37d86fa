use toy_rust_os::vga_buffer::{Color, ColorCode, ScreenChar, Writer, BUFFER_WIDTH};

fn cell(w: &Writer, row: usize, col: usize) -> u8 {
    w.buffer()[row * BUFFER_WIDTH + col].ascii_character
}

#[test]
fn color_code_packs_background_high() {
    assert_eq!(ColorCode::new(Color::Yellow, Color::Black), ColorCode(0x0e));
    assert_eq!(ColorCode::new(Color::White, Color::Blue), ColorCode(0x1f));
    assert_eq!(Color::LightGray.value(), 7);
}

#[test]
fn bytes_go_on_the_bottom_row() {
    let code = ColorCode::new(Color::Yellow, Color::Black);
    let mut w = Writer::new(code);
    w.write_byte(72);
    w.write_string("ello");
    let row: Vec<u8> = (0..5).map(|c| cell(&w, 24, c)).collect();
    assert_eq!(row, b"Hello".to_vec());
    assert_eq!(w.buffer()[24 * BUFFER_WIDTH], ScreenChar { ascii_character: 72, color_code: code });
    assert_eq!(cell(&w, 23, 0), 32);
}

#[test]
fn newline_scrolls_up() {
    let mut w = Writer::new(ColorCode(0x0f));
    w.write_string("a\nb");
    assert_eq!(cell(&w, 23, 0), b'a');
    assert_eq!(cell(&w, 24, 0), b'b');
    assert_eq!(cell(&w, 24, 1), b' ');
}

#[test]
fn a_full_row_wraps() {
    let mut w = Writer::new(ColorCode(0x0f));
    for _ in 0..81 {
        w.write_byte(b'x');
    }
    assert_eq!(cell(&w, 23, 79), b'x');
    assert_eq!(cell(&w, 24, 0), b'x');
    assert_eq!(cell(&w, 24, 1), b' ');
}

#[test]
fn unprintable_bytes_are_replaced() {
    let mut w = Writer::new(ColorCode(0x0f));
    w.write_string("\u{e4}!");
    assert_eq!(cell(&w, 24, 0), 0xfe);
    assert_eq!(cell(&w, 24, 1), 0xfe);
    assert_eq!(cell(&w, 24, 2), b'!');
}
