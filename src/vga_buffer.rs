use vstd::prelude::*;
use vstd::string::StringSliceAdditionalSpecFns;

verus! {

/// The sixteen colours of VGA text mode.
#[derive(Debug, Clone, Copy, PartialEq, Eq, Structural)]
pub enum Color {
    Black,
    Blue,
    Green,
    Cyan,
    Red,
    Magenta,
    Brown,
    LightGray,
    DarkGray,
    LightBlue,
    LightGreen,
    LightCyan,
    LightRed,
    Pink,
    Yellow,
    White,
}

/// The 4-bit code of a colour.
pub open spec fn color_value(c: Color) -> u8 {
    match c {
        Color::Black => 0,
        Color::Blue => 1,
        Color::Green => 2,
        Color::Cyan => 3,
        Color::Red => 4,
        Color::Magenta => 5,
        Color::Brown => 6,
        Color::LightGray => 7,
        Color::DarkGray => 8,
        Color::LightBlue => 9,
        Color::LightGreen => 10,
        Color::LightCyan => 11,
        Color::LightRed => 12,
        Color::Pink => 13,
        Color::Yellow => 14,
        Color::White => 15,
    }
}

impl Color {
    /// The 4-bit code of this colour.
    pub fn value(self) -> (r: u8)
        ensures
            r == color_value(self),
            r < 16,
    {
        match self {
            Color::Black => 0,
            Color::Blue => 1,
            Color::Green => 2,
            Color::Cyan => 3,
            Color::Red => 4,
            Color::Magenta => 5,
            Color::Brown => 6,
            Color::LightGray => 7,
            Color::DarkGray => 8,
            Color::LightBlue => 9,
            Color::LightGreen => 10,
            Color::LightCyan => 11,
            Color::LightRed => 12,
            Color::Pink => 13,
            Color::Yellow => 14,
            Color::White => 15,
        }
    }
}

/// A foreground and a background colour in one byte: the background in the
/// high four bits.
#[derive(Debug, Clone, Copy, PartialEq, Eq, Structural)]
pub struct ColorCode(pub u8);

impl ColorCode {
    pub fn new(foreground: Color, background: Color) -> (r: Self)
        ensures
            r.0 == color_value(background) * 16 + color_value(foreground),
    {
        let f = foreground.value();
        let b = background.value();
        assert((b << 4u8) | f == b * 16 + f) by (bit_vector)
            requires
                b < 16,
                f < 16,
        ;
        ColorCode((b << 4) | f)
    }
}

/// A character cell of the screen.
#[derive(Debug, Clone, Copy, PartialEq, Eq, Structural)]
pub struct ScreenChar {
    pub ascii_character: u8,
    pub color_code: ColorCode,
}

/// Rows of the text screen.
pub const BUFFER_HEIGHT: usize = 25;

/// Columns of the text screen.
pub const BUFFER_WIDTH: usize = 80;

/// Cells of the text screen, row after row.
pub const BUFFER_CELLS: usize = 2000;

/// The byte that ends a line.
pub const NEWLINE: u8 = 10;

/// The byte of a blank cell.
pub const SPACE: u8 = 32;

/// The byte written in place of one that is not printable ASCII.
pub const REPLACEMENT_BYTE: u8 = 0xfe;

/// A space in colour `color`.
pub open spec fn blank(color: ColorCode) -> ScreenChar {
    ScreenChar { ascii_character: SPACE, color_code: color }
}

/// The screen moved up one row, with a blank bottom row.
pub open spec fn scrolled(screen: Seq<ScreenChar>, color: ColorCode) -> Seq<ScreenChar> {
    screen.subrange(BUFFER_WIDTH as int, BUFFER_CELLS as int) + Seq::new(
        BUFFER_WIDTH as nat,
        |i: int| blank(color),
    )
}

/// The screen and cursor column after writing `byte`: a newline scrolls;
/// any other byte goes at the cursor on the bottom row, after a scroll when
/// the row is full.
pub open spec fn write_byte_spec(
    screen: Seq<ScreenChar>,
    column: int,
    color: ColorCode,
    byte: u8,
) -> (Seq<ScreenChar>, int) {
    if byte == NEWLINE {
        (scrolled(screen, color), 0)
    } else {
        let (s, c) = if column >= BUFFER_WIDTH {
            (scrolled(screen, color), 0)
        } else {
            (screen, column)
        };
        (
            s.update(
                (BUFFER_HEIGHT - 1) * BUFFER_WIDTH + c,
                ScreenChar { ascii_character: byte, color_code: color },
            ),
            c + 1,
        )
    }
}

/// The byte that `write_string` writes for `byte`: printable ASCII and
/// newline as they are, anything else as the replacement byte.
pub open spec fn shown_byte(byte: u8) -> u8 {
    if (0x20 <= byte <= 0x7e) || byte == NEWLINE {
        byte
    } else {
        REPLACEMENT_BYTE
    }
}

/// The screen and cursor column after writing the bytes of `bytes`, one
/// after another, each as `shown_byte` gives it.
pub open spec fn write_bytes_spec(
    screen: Seq<ScreenChar>,
    column: int,
    color: ColorCode,
    bytes: Seq<u8>,
) -> (Seq<ScreenChar>, int)
    decreases bytes.len(),
{
    if bytes.len() == 0 {
        (screen, column)
    } else {
        let prev = write_bytes_spec(screen, column, color, bytes.drop_last());
        write_byte_spec(prev.0, prev.1, color, shown_byte(bytes.last()))
    }
}

/// Writes text to an 80 x 25 character screen, always on the bottom row,
/// scrolling the screen up when a line ends.
pub struct Writer {
    column_position: usize,
    color_code: ColorCode,
    buffer: Vec<ScreenChar>,
}

impl Writer {
    /// The cells of the screen, row after row.
    pub closed spec fn screen(&self) -> Seq<ScreenChar> {
        self.buffer@
    }

    /// The column where the next character goes.
    pub closed spec fn column(&self) -> int {
        self.column_position as int
    }

    pub closed spec fn color(&self) -> ColorCode {
        self.color_code
    }

    pub open spec fn wf(&self) -> bool {
        self.screen().len() == BUFFER_CELLS && 0 <= self.column() <= BUFFER_WIDTH
    }

    /// A writer in `color_code` over a blank screen.
    pub fn new(color_code: ColorCode) -> (r: Self)
        ensures
            r.wf(),
            r.screen() == Seq::new(BUFFER_CELLS as nat, |i: int| blank(color_code)),
            r.column() == 0,
            r.color() == color_code,
    {
        let mut buffer: Vec<ScreenChar> = Vec::new();
        let mut i: usize = 0;
        while i < BUFFER_CELLS
            invariant
                0 <= i <= BUFFER_CELLS,
                buffer@ == Seq::new(i as nat, |j: int| blank(color_code)),
            decreases BUFFER_CELLS - i,
        {
            buffer.push(ScreenChar { ascii_character: SPACE, color_code });
            i += 1;
            assert(buffer@ =~= Seq::new(i as nat, |j: int| blank(color_code)));
        }
        Writer { column_position: 0, color_code, buffer }
    }

    /// The cells of the screen, row after row.
    pub fn buffer(&self) -> (r: &Vec<ScreenChar>)
        ensures
            r@ == self.screen(),
    {
        &self.buffer
    }

    /// Writes one byte: a newline ends the line; any other byte is written
    /// as it is at the cursor.
    pub fn write_byte(&mut self, byte: u8)
        requires
            old(self).wf(),
        ensures
            final(self).wf(),
            final(self).color() == old(self).color(),
            (final(self).screen(), final(self).column()) == write_byte_spec(
                old(self).screen(),
                old(self).column(),
                old(self).color(),
                byte,
            ),
    {
        if byte == NEWLINE {
            self.new_line();
        } else {
            if self.column_position >= BUFFER_WIDTH {
                self.new_line();
            }
            let row = BUFFER_HEIGHT - 1;
            let column = self.column_position;
            let color_code = self.color_code;
            self.buffer.set(
                row * BUFFER_WIDTH + column,
                ScreenChar { ascii_character: byte, color_code },
            );
            self.column_position += 1;
        }
    }

    /// Writes each byte of `s`; bytes that are neither printable ASCII nor
    /// a newline are written as the replacement byte.
    pub fn write_string(&mut self, s: &str)
        requires
            old(self).wf(),
        ensures
            final(self).wf(),
            final(self).color() == old(self).color(),
            (final(self).screen(), final(self).column()) == write_bytes_spec(
                old(self).screen(),
                old(self).column(),
                old(self).color(),
                s.spec_bytes(),
            ),
    {
        let bytes = s.as_bytes();
        let mut i: usize = 0;
        while i < bytes.len()
            invariant
                self.wf(),
                self.color() == old(self).color(),
                0 <= i <= bytes@.len(),
                bytes@ == s.spec_bytes(),
                (self.screen(), self.column()) == write_bytes_spec(
                    old(self).screen(),
                    old(self).column(),
                    old(self).color(),
                    bytes@.take(i as int),
                ),
            decreases bytes@.len() - i,
        {
            let byte = bytes[i];
            proof {
                assert(bytes@.take(i + 1).drop_last() =~= bytes@.take(i as int));
            }
            if (0x20 <= byte && byte <= 0x7e) || byte == NEWLINE {
                self.write_byte(byte);
            } else {
                self.write_byte(REPLACEMENT_BYTE);
            }
            i += 1;
        }
        assert(bytes@.take(i as int) =~= bytes@);
    }

    /// Moves every row up one, drops the top row, blanks the bottom row and
    /// puts the cursor at its start.
    fn new_line(&mut self)
        requires
            old(self).wf(),
        ensures
            final(self).wf(),
            final(self).color() == old(self).color(),
            final(self).screen() == scrolled(old(self).screen(), old(self).color()),
            final(self).column() == 0,
    {
        let ghost pre = self.buffer@;
        let mut i: usize = BUFFER_WIDTH;
        while i < BUFFER_CELLS
            invariant
                BUFFER_WIDTH <= i <= BUFFER_CELLS,
                self.buffer@.len() == BUFFER_CELLS,
                self.color_code == old(self).color_code,
                self.column_position == old(self).column_position,
                pre == old(self).buffer@,
                forall|j: int| 0 <= j < i - BUFFER_WIDTH ==> self.buffer@[j] == pre[j + BUFFER_WIDTH],
                forall|j: int| i - BUFFER_WIDTH <= j < BUFFER_CELLS ==> self.buffer@[j] == pre[j],
            decreases BUFFER_CELLS - i,
        {
            let character = self.buffer[i];
            self.buffer.set(i - BUFFER_WIDTH, character);
            i += 1;
        }
        self.clear_row(BUFFER_HEIGHT - 1);
        self.column_position = 0;
        assert(self.buffer@ =~= scrolled(pre, self.color_code));
    }

    /// Blanks row `row`, in the writer's colour.
    fn clear_row(&mut self, row: usize)
        requires
            old(self).buffer@.len() == BUFFER_CELLS,
            row < BUFFER_HEIGHT,
        ensures
            final(self).buffer@.len() == BUFFER_CELLS,
            final(self).color_code == old(self).color_code,
            final(self).column_position == old(self).column_position,
            forall|j: int|
                0 <= j < BUFFER_CELLS ==> #[trigger] final(self).buffer@[j] == if row * BUFFER_WIDTH
                    <= j < (row + 1) * BUFFER_WIDTH {
                    blank(old(self).color_code)
                } else {
                    old(self).buffer@[j]
                },
    {
        let blank = ScreenChar { ascii_character: SPACE, color_code: self.color_code };
        let mut col: usize = 0;
        while col < BUFFER_WIDTH
            invariant
                0 <= col <= BUFFER_WIDTH,
                row < BUFFER_HEIGHT,
                self.buffer@.len() == BUFFER_CELLS,
                self.color_code == old(self).color_code,
                self.column_position == old(self).column_position,
                blank == self::blank(self.color_code),
                forall|j: int|
                    0 <= j < BUFFER_CELLS ==> #[trigger] self.buffer@[j] == if row * BUFFER_WIDTH
                        <= j < row * BUFFER_WIDTH + col {
                        blank
                    } else {
                        old(self).buffer@[j]
                    },
            decreases BUFFER_WIDTH - col,
        {
            self.buffer.set(row * BUFFER_WIDTH + col, blank);
            col += 1;
        }
    }
}

} // verus!
