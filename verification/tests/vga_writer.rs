use blog_os_verified::vga_buffer::{
    print_something, Color, ColorCode, VgaChar, Writer, BUFFER_CELLS, BUFFER_COLS,
    LAST_ROW_START,
};

fn blank() -> VgaChar {
    VgaChar { ascii_char: b' ', color_code: ColorCode(0) }
}

fn blank_writer() -> Writer {
    Writer::new([blank(); BUFFER_CELLS])
}

fn row_text(w: &Writer, row: usize) -> Vec<u8> {
    w.cells()[row * BUFFER_COLS..(row + 1) * BUFFER_COLS].iter().map(|c| c.ascii_char).collect()
}

fn padded(text: &[u8]) -> Vec<u8> {
    let mut v = text.to_vec();
    v.resize(BUFFER_COLS, b' ');
    v
}

#[test]
fn color_codes_pack_background_high() {
    assert_eq!(ColorCode::new(Color::Cyan, Color::Black), ColorCode(0x03));
    assert_eq!(ColorCode::new(Color::Yellow, Color::Pink), ColorCode(0xde));
    assert_eq!(ColorCode::new(Color::Black, Color::Pink), ColorCode(0xd0));
    assert_eq!(ColorCode::new(Color::White, Color::White), ColorCode(0xff));
    assert_eq!(Color::LightGray.as_u8(), 7);
}

#[test]
fn text_goes_to_the_bottom_row() {
    let mut w = blank_writer();
    w.write_string("Hi");
    assert_eq!(
        w.cells()[LAST_ROW_START],
        VgaChar { ascii_char: b'H', color_code: ColorCode(0x03) }
    );
    assert_eq!(w.cells()[LAST_ROW_START + 1].ascii_char, b'i');
    assert_eq!(w.cells()[LAST_ROW_START + 2], blank());
    assert_eq!(row_text(&w, 23), padded(b""));
}

#[test]
fn newline_scrolls_up() {
    let mut w = blank_writer();
    w.write_string("ab\ncd");
    assert_eq!(row_text(&w, 23), padded(b"ab"));
    assert_eq!(row_text(&w, 24), padded(b"cd"));
}

#[test]
fn carriage_return_overwrites_the_line() {
    let mut w = blank_writer();
    w.write_string("abcd\rXY");
    assert_eq!(row_text(&w, 24), padded(b"XYcd"));
}

#[test]
fn full_row_wraps_by_scrolling() {
    let mut w = blank_writer();
    let long = "x".repeat(BUFFER_COLS) + "yz";
    w.write_string(&long);
    assert_eq!(row_text(&w, 23), vec![b'x'; BUFFER_COLS]);
    assert_eq!(row_text(&w, 24), padded(b"yz"));
}

#[test]
fn unprintable_bytes_show_as_question_marks() {
    let mut w = blank_writer();
    w.write_string("a\tb\u{e9}c");
    // the tab is one byte, the accented letter two bytes of UTF-8
    assert_eq!(row_text(&w, 24), padded(b"a?b??c"));
}

#[test]
fn set_color_applies_to_later_text() {
    let mut w = blank_writer();
    w.write_string("a");
    w.set_color(ColorCode::new(Color::Red, Color::Blue));
    w.write_string("b");
    assert_eq!(w.cells()[LAST_ROW_START].color_code, ColorCode(0x03));
    assert_eq!(w.cells()[LAST_ROW_START + 1].color_code, ColorCode(0x14));
}

#[test]
fn scrolling_blanks_the_bottom_row_in_black() {
    let mut start = [blank(); BUFFER_CELLS];
    for (k, c) in start.iter_mut().enumerate() {
        *c = VgaChar { ascii_char: b'A' + (k / BUFFER_COLS) as u8, color_code: ColorCode(0x1f) };
    }
    let mut w = Writer::new(start);
    w.write_string("\n");
    assert_eq!(row_text(&w, 0), vec![b'B'; BUFFER_COLS]);
    assert_eq!(row_text(&w, 23), vec![b'A' + 24; BUFFER_COLS]);
    for c in &w.cells()[LAST_ROW_START..] {
        assert_eq!(*c, blank());
    }
}

#[test]
fn writing_in_two_parts_is_writing_the_whole() {
    let text = "Hello\rworld, this line is long enough to wrap around the end of the row!\n?";
    let (a, b) = text.split_at(30);
    let mut w1 = blank_writer();
    w1.write_string(a);
    w1.write_string(b);
    let mut w2 = blank_writer();
    w2.write_string(text);
    assert_eq!(w1.cells(), w2.cells());
}

#[test]
fn print_something_leaves_the_expected_screen() {
    let mut w = blank_writer();
    print_something(&mut w);
    let greeting = b"Hello world de ouf!?!Hello world de ouf!?!";
    let line = b"Hello world de ouf!?! 42 Hello world de ouf!?!Hello world de ouf!?!Hello world de ouf!?!Hello world de ouf!?!";
    assert_eq!(row_text(&w, 22), padded(greeting));
    assert_eq!(row_text(&w, 23), line[..BUFFER_COLS].to_vec());
    assert_eq!(row_text(&w, 24), padded(&line[BUFFER_COLS..]));
    assert_eq!(w.cells()[22 * BUFFER_COLS].color_code, ColorCode(0x03));
    assert_eq!(w.cells()[23 * BUFFER_COLS].color_code, ColorCode(0xde));
    assert_eq!(w.cells()[LAST_ROW_START].color_code, ColorCode(0xde));
    // the final colour is only used by later text
    w.write_string("!");
    assert_eq!(w.cells()[LAST_ROW_START + line.len() - BUFFER_COLS].color_code, ColorCode(0xd0));
}
