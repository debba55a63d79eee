use vstd::prelude::*;
use vstd::string::StringSliceAdditionalSpecFns;

verus! {

broadcast use vstd::array::group_array_axioms;

/// The sixteen colours of the VGA text mode.
#[derive(Clone, Copy, Debug, PartialEq, Eq, Structural)]
pub enum Color {
    Black,
    Blue,
    Green,
    Cyan,
    Red,
    Magenta,
    Brown,
    LightGray,
    DarkGray,
    LightBlue,
    LightGreen,
    LightCyan,
    LightRed,
    Pink,
    Yellow,
    White,
}

/// The number the VGA hardware gives to a colour.
pub open spec fn color_number(c: Color) -> u8 {
    match c {
        Color::Black => 0,
        Color::Blue => 1,
        Color::Green => 2,
        Color::Cyan => 3,
        Color::Red => 4,
        Color::Magenta => 5,
        Color::Brown => 6,
        Color::LightGray => 7,
        Color::DarkGray => 8,
        Color::LightBlue => 9,
        Color::LightGreen => 10,
        Color::LightCyan => 11,
        Color::LightRed => 12,
        Color::Pink => 13,
        Color::Yellow => 14,
        Color::White => 15,
    }
}

impl Color {
    /// The number the VGA hardware gives to this colour.
    pub fn as_u8(self) -> (r: u8)
        ensures
            r == color_number(self),
            r < 16,
    {
        match self {
            Color::Black => 0,
            Color::Blue => 1,
            Color::Green => 2,
            Color::Cyan => 3,
            Color::Red => 4,
            Color::Magenta => 5,
            Color::Brown => 6,
            Color::LightGray => 7,
            Color::DarkGray => 8,
            Color::LightBlue => 9,
            Color::LightGreen => 10,
            Color::LightCyan => 11,
            Color::LightRed => 12,
            Color::Pink => 13,
            Color::Yellow => 14,
            Color::White => 15,
        }
    }
}

/// A foreground and a background colour packed in one attribute byte: the
/// background in the high four bits, the foreground in the low four.
#[derive(Clone, Copy, Debug, PartialEq, Eq, Hash, Structural)]
pub struct ColorCode(pub u8);

/// The attribute byte of `foreground` on `background`.
pub open spec fn color_code_of(foreground: Color, background: Color) -> ColorCode {
    ColorCode((color_number(background) * 16 + color_number(foreground)) as u8)
}

impl ColorCode {
    pub fn new(foreground: Color, background: Color) -> (r: ColorCode)
        ensures
            r == color_code_of(foreground, background),
            r.0 == color_number(background) * 16 + color_number(foreground),
            r.0 % 16 == color_number(foreground),
            r.0 / 16 == color_number(background),
    {
        let b = background.as_u8();
        let f = foreground.as_u8();
        assert((b << 4u8) | f == b * 16 + f) by (bit_vector)
            requires
                b < 16,
                f < 16,
        ;
        ColorCode((b << 4) | f)
    }
}

/// One cell of the text screen: a character and its colours.
#[derive(Clone, Copy, Debug, PartialEq, Eq, Hash, Structural)]
pub struct VgaChar {
    pub ascii_char: u8,
    pub color_code: ColorCode,
}

pub const BUFFER_ROWS: usize = 25;

pub const BUFFER_COLS: usize = 80;

/// Number of cells on the screen.
pub const BUFFER_CELLS: usize = 2000;

/// The first cell of the bottom row, where text is written.
pub const LAST_ROW_START: usize = 1920;

/// A blank cell: a space, black on black.
pub open spec fn blank_char() -> VgaChar {
    VgaChar { ascii_char: 0x20, color_code: ColorCode(0) }
}

/// What a writer is: the cells of the screen, row after row, the column
/// of the next character in the bottom row, and the current colours.
#[verifier::ext_equal]
pub struct WriterView {
    pub cells: Seq<VgaChar>,
    pub column: nat,
    pub color: ColorCode,
}

/// Every row moved up by one, the top row dropped, a blank bottom row, and
/// the column back at the start.
pub open spec fn shifted(v: WriterView) -> WriterView {
    WriterView {
        cells: Seq::new(
            BUFFER_CELLS as nat,
            |k: int|
                if k < LAST_ROW_START {
                    v.cells[k + BUFFER_COLS]
                } else {
                    blank_char()
                },
        ),
        column: 0,
        color: v.color,
    }
}

/// `byte` put in the bottom row at the column, in the current colours,
/// after moving the rows up if the row is full; the column moves on.
pub open spec fn with_byte(v: WriterView, byte: u8) -> WriterView {
    let w = if v.column >= BUFFER_COLS {
        shifted(v)
    } else {
        v
    };
    WriterView {
        cells: w.cells.update(
            LAST_ROW_START + w.column,
            VgaChar { ascii_char: byte, color_code: w.color },
        ),
        column: w.column + 1,
        color: w.color,
    }
}

/// A byte the writer can show as it is.
pub open spec fn printable(byte: u8) -> bool {
    0x20 <= byte <= 0x7e
}

/// One byte of text: a new line, a return to the start of the line, a
/// printable character, or anything else shown as `?`.
pub open spec fn with_text_byte(v: WriterView, byte: u8) -> WriterView {
    if byte == 0x0a {
        shifted(v)
    } else if byte == 0x0d {
        WriterView { column: 0, ..v }
    } else if printable(byte) {
        with_byte(v, byte)
    } else {
        with_byte(v, 0x3f)
    }
}

/// The bytes of a text, one after the other.
pub open spec fn with_text(v: WriterView, bytes: Seq<u8>) -> WriterView
    decreases bytes.len(),
{
    if bytes.len() == 0 {
        v
    } else {
        with_text_byte(with_text(v, bytes.drop_last()), bytes.last())
    }
}

/// A writer state the writer can be in: a full screen and a column no
/// further than one past the end of the row.
pub open spec fn view_wf(v: WriterView) -> bool {
    v.cells.len() == BUFFER_CELLS && v.column <= BUFFER_COLS
}

/// Writes text to the bottom row of a VGA text screen, scrolling up.
pub struct Writer {
    current_column: usize,
    current_color: ColorCode,
    buffer: [VgaChar; BUFFER_CELLS],
}

impl View for Writer {
    type V = WriterView;

    closed spec fn view(&self) -> WriterView {
        WriterView {
            cells: self.buffer@,
            column: self.current_column as nat,
            color: self.current_color,
        }
    }
}

impl Writer {
    pub open spec fn wf(&self) -> bool {
        view_wf(self@)
    }

    /// A writer over a screen that holds `buffer`, writing cyan on black
    /// from the start of the bottom row.
    pub fn new(buffer: [VgaChar; BUFFER_CELLS]) -> (r: Writer)
        ensures
            r.wf(),
            r@.cells == buffer@,
            r@.column == 0,
            r@.color == color_code_of(Color::Cyan, Color::Black),
    {
        Writer { current_column: 0, current_color: ColorCode::new(Color::Cyan, Color::Black), buffer }
    }

    /// The cells of the screen, row after row.
    pub fn cells(&self) -> (r: &[VgaChar; BUFFER_CELLS])
        ensures
            r@ == self@.cells,
    {
        &self.buffer
    }

    fn shift_rows_up(&mut self)
        requires
            old(self).wf(),
        ensures
            final(self).wf(),
            final(self)@ == shifted(old(self)@),
    {
        let ghost start = self.buffer@;
        let mut i: usize = 1;
        while i < BUFFER_ROWS
            invariant
                1 <= i <= BUFFER_ROWS,
                self.current_color == old(self).current_color,
                self.buffer@.len() == BUFFER_CELLS,
                start.len() == BUFFER_CELLS,
                forall|k: int|
                    0 <= k < (i - 1) * BUFFER_COLS ==> #[trigger] self.buffer@[k] == start[k
                        + BUFFER_COLS],
                forall|k: int|
                    (i - 1) * BUFFER_COLS <= k < BUFFER_CELLS ==> #[trigger] self.buffer@[k]
                        == start[k],
            decreases BUFFER_ROWS - i,
        {
            let mut j: usize = 0;
            while j < BUFFER_COLS
                invariant
                    1 <= i < BUFFER_ROWS,
                    j <= BUFFER_COLS,
                    self.current_color == old(self).current_color,
                    self.buffer@.len() == BUFFER_CELLS,
                    start.len() == BUFFER_CELLS,
                    forall|k: int|
                        0 <= k < (i - 1) * BUFFER_COLS + j ==> #[trigger] self.buffer@[k]
                            == start[k + BUFFER_COLS],
                    forall|k: int|
                        (i - 1) * BUFFER_COLS + j <= k < BUFFER_CELLS ==> #[trigger] self.buffer@[k]
                            == start[k],
                decreases BUFFER_COLS - j,
            {
                let c = self.buffer[i * BUFFER_COLS + j];
                self.buffer[(i - 1) * BUFFER_COLS + j] = c;
                j = j + 1;
            }
            i = i + 1;
        }
        self.clear_last_row();
        self.current_column = 0;
        proof {
            assert(self.buffer@ =~= shifted(old(self)@).cells);
            assert(self@ =~= shifted(old(self)@));
        }
    }

    fn clear_last_row(&mut self)
        requires
            old(self).buffer@.len() == BUFFER_CELLS,
        ensures
            final(self).buffer@.len() == BUFFER_CELLS,
            final(self).current_column == old(self).current_column,
            final(self).current_color == old(self).current_color,
            forall|k: int|
                0 <= k < LAST_ROW_START ==> #[trigger] final(self).buffer@[k] == old(
                    self,
                ).buffer@[k],
            forall|k: int|
                LAST_ROW_START <= k < BUFFER_CELLS ==> #[trigger] final(self).buffer@[k]
                    == blank_char(),
    {
        let blank = VgaChar {
            ascii_char: 0x20,
            color_code: ColorCode::new(Color::Black, Color::Black),
        };
        let mut j: usize = 0;
        while j < BUFFER_COLS
            invariant
                j <= BUFFER_COLS,
                blank == blank_char(),
                self.buffer@.len() == BUFFER_CELLS,
                self.current_column == old(self).current_column,
                self.current_color == old(self).current_color,
                forall|k: int|
                    0 <= k < LAST_ROW_START ==> #[trigger] self.buffer@[k] == old(
                        self,
                    ).buffer@[k],
                forall|k: int|
                    LAST_ROW_START <= k < LAST_ROW_START + j ==> #[trigger] self.buffer@[k]
                        == blank_char(),
            decreases BUFFER_COLS - j,
        {
            self.buffer[LAST_ROW_START + j] = blank;
            j = j + 1;
        }
    }

    fn write_byte(&mut self, byte: u8)
        requires
            old(self).wf(),
        ensures
            final(self).wf(),
            final(self)@ == with_byte(old(self)@, byte),
    {
        if self.current_column >= BUFFER_COLS {
            self.shift_rows_up()
        }
        self.buffer[LAST_ROW_START + self.current_column] = VgaChar {
            ascii_char: byte,
            color_code: self.current_color,
        };
        self.current_column += 1;
    }

    pub fn set_color(&mut self, color_code: ColorCode)
        requires
            old(self).wf(),
        ensures
            final(self).wf(),
            final(self)@ == (WriterView { color: color_code, ..old(self)@ }),
    {
        self.current_color = color_code;
    }

    /// Writes the bytes of `string`: a new line scrolls up, a carriage
    /// return goes back to the start of the line, printable characters are
    /// shown and every other byte is shown as `?`.
    pub fn write_string(&mut self, string: &str)
        requires
            old(self).wf(),
        ensures
            final(self).wf(),
            final(self)@ == with_text(old(self)@, string.spec_bytes()),
    {
        let bytes = string.as_bytes();
        let mut i: usize = 0;
        while i < bytes.len()
            invariant
                self.wf(),
                i <= bytes@.len(),
                bytes@ == string.spec_bytes(),
                self@ == with_text(old(self)@, bytes@.take(i as int)),
            decreases bytes@.len() - i,
        {
            let byte = bytes[i];
            proof {
                assert(bytes@.take(i + 1).drop_last() =~= bytes@.take(i as int));
            }
            if byte == 0x0a {
                self.shift_rows_up();
            } else if byte == 0x0d {
                self.current_column = 0;
            } else if 0x20 <= byte && byte <= 0x7e {
                self.write_byte(byte);
            } else {
                self.write_byte(0x3f);
            }
            i = i + 1;
        }
        proof {
            assert(bytes@.take(i as int) =~= bytes@);
        }
    }
}

} // verus!

verus! {

/// The first text `print_something` writes.
pub open spec fn greeting() -> Seq<u8> {
    "Hello world de ouf!?!Hello world de ouf!?!".spec_bytes()
}

/// The second text `print_something` writes, with its number formatted.
pub open spec fn second_text() -> Seq<u8> {
    "\nTHIS WILL NEVER BE DISPLAYED\rHello world de ouf!?! 42 Hello world de ouf!?!Hello world de ouf!?!Hello world de ouf!?!Hello world de ouf!?!".spec_bytes()
}

/// Writes a greeting, switches to yellow on pink, starts a new line that
/// the carriage return then overwrites, and ends in black on pink.
pub fn print_something(writer: &mut Writer)
    requires
        old(writer).wf(),
    ensures
        final(writer).wf(),
        final(writer)@ == (WriterView {
            color: color_code_of(Color::Black, Color::Pink),
            ..with_text(
                WriterView {
                    color: color_code_of(Color::Yellow, Color::Pink),
                    ..with_text(old(writer)@, greeting())
                },
                second_text(),
            )
        }),
{
    writer.write_string("Hello world de ouf!?!Hello world de ouf!?!");
    writer.set_color(ColorCode::new(Color::Yellow, Color::Pink));
    writer.write_string(
        "\nTHIS WILL NEVER BE DISPLAYED\rHello world de ouf!?! 42 Hello world de ouf!?!Hello world de ouf!?!Hello world de ouf!?!Hello world de ouf!?!",
    );
    let color = ColorCode::new(Color::Black, Color::Pink);
    writer.set_color(color);
}

/// Writing one text and then another is writing the two joined.
pub proof fn lemma_with_text_concat(v: WriterView, a: Seq<u8>, b: Seq<u8>)
    ensures
        with_text(with_text(v, a), b) == with_text(v, a + b),
    decreases b.len(),
{
    if b.len() == 0 {
        assert(a + b =~= a);
    } else {
        lemma_with_text_concat(v, a, b.drop_last());
        assert((a + b).drop_last() =~= a + b.drop_last());
        assert((a + b).last() == b.last());
    }
}

/// Every cell of the screen holds a printable character.
pub open spec fn screen_printable(v: WriterView) -> bool {
    forall|k: int| 0 <= k < v.cells.len() ==> printable(#[trigger] v.cells[k].ascii_char)
}

/// Writing any text keeps the writer in a state it can be in, and a screen
/// that shows only printable characters goes on showing only those.
pub proof fn lemma_with_text_keeps_printable(v: WriterView, bytes: Seq<u8>)
    requires
        view_wf(v),
    ensures
        view_wf(with_text(v, bytes)),
        screen_printable(v) ==> screen_printable(with_text(v, bytes)),
    decreases bytes.len(),
{
    if bytes.len() > 0 {
        lemma_with_text_keeps_printable(v, bytes.drop_last());
        let w = with_text(v, bytes.drop_last());
        let s = shifted(w);
        assert(view_wf(s));
        assert(screen_printable(w) ==> screen_printable(s)) by {
            if screen_printable(w) {
                assert forall|k: int| 0 <= k < s.cells.len() implies printable(
                    #[trigger] s.cells[k].ascii_char,
                ) by {
                    if k < LAST_ROW_START {
                        assert(printable(w.cells[k + BUFFER_COLS].ascii_char));
                    }
                }
            }
        }
    }
}

} // verus!

verus! {

/// The sixteen colours in the order of the VGA palette.
pub open spec fn palette() -> Seq<Color> {
    seq![
        Color::Black,
        Color::Blue,
        Color::Green,
        Color::Cyan,
        Color::Red,
        Color::Magenta,
        Color::Brown,
        Color::LightGray,
        Color::DarkGray,
        Color::LightBlue,
        Color::LightGreen,
        Color::LightCyan,
        Color::LightRed,
        Color::Pink,
        Color::Yellow,
        Color::White,
    ]
}

/// A colour's number is its index in the VGA palette, so different colours
/// have different numbers.
pub proof fn lemma_color_numbers_are_palette_indices()
    ensures
        forall|i: int| 0 <= i < 16 ==> color_number(#[trigger] palette()[i]) == i,
        forall|c: Color, d: Color| color_number(c) == color_number(d) ==> c == d,
{
    assert(palette()[0] == Color::Black);
    assert(palette()[1] == Color::Blue);
    assert(palette()[2] == Color::Green);
    assert(palette()[3] == Color::Cyan);
    assert(palette()[4] == Color::Red);
    assert(palette()[5] == Color::Magenta);
    assert(palette()[6] == Color::Brown);
    assert(palette()[7] == Color::LightGray);
    assert(palette()[8] == Color::DarkGray);
    assert(palette()[9] == Color::LightBlue);
    assert(palette()[10] == Color::LightGreen);
    assert(palette()[11] == Color::LightCyan);
    assert(palette()[12] == Color::LightRed);
    assert(palette()[13] == Color::Pink);
    assert(palette()[14] == Color::Yellow);
    assert(palette()[15] == Color::White);
}

/// A text of one byte is that byte.
proof fn lemma_with_text_single(v: WriterView, byte: u8)
    ensures
        with_text(v, seq![byte]) == with_text_byte(v, byte),
{
    let s = seq![byte];
    assert(s.drop_last() =~= Seq::<u8>::empty());
    assert(s.last() == byte);
    assert(with_text(v, s.drop_last()) == v);
}

/// Writing one byte at a column before the end of the bottom row: every
/// byte from 0x20 (space) to 0x7e (`~`) is put in that cell as it is, in
/// the current colours; every other byte but a new line or a carriage
/// return is put there as `?`. No other cell changes and the column moves
/// on by one.
pub proof fn lemma_one_byte_in_bottom_row(v: WriterView, byte: u8)
    requires
        view_wf(v),
        v.column < 80,
        byte != 0x0a,
        byte != 0x0d,
    ensures
        ({
            let w = with_text(v, seq![byte]);
            let shown = if 0x20 <= byte && byte <= 0x7e {
                byte
            } else {
                0x3fu8
            };
            &&& w.cells == v.cells.update(
                1920 + v.column as int,
                VgaChar { ascii_char: shown, color_code: v.color },
            )
            &&& w.column == v.column + 1
            &&& w.color == v.color
        }),
{
    lemma_with_text_single(v, byte);
}

/// A new line moves every row up by one, blanks the bottom row and goes
/// back to its start; a carriage return only goes back to the start.
pub proof fn lemma_line_controls(v: WriterView)
    requires
        view_wf(v),
    ensures
        ({
            let w = with_text(v, seq![0x0au8]);
            &&& w.column == 0
            &&& w.color == v.color
            &&& w.cells.len() == 2000
            &&& forall|k: int| 0 <= k < 1920 ==> #[trigger] w.cells[k] == v.cells[k + 80]
            &&& forall|k: int|
                1920 <= k < 2000 ==> #[trigger] w.cells[k] == (VgaChar {
                    ascii_char: 0x20,
                    color_code: ColorCode(0),
                })
        }),
        with_text(v, seq![0x0du8]) == (WriterView { column: 0, ..v }),
{
    lemma_with_text_single(v, 0x0au8);
    lemma_with_text_single(v, 0x0du8);
    assert(with_text(v, seq![0x0du8]) =~= (WriterView { column: 0, ..v }));
}

} // verus!
