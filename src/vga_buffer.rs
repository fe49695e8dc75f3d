//! The text-mode screen: 25 rows of 80 cells, each a character and its
//! colours, written like a terminal that scrolls up when it is full.
//!
//! The writer keeps the screen's contents; the caller copies them to the
//! display memory and moves the hardware cursor with `cursor_writes`.

use vstd::prelude::*;
use vstd::string::StringSliceAdditionalSpecFns;

verus! {

/// Rows on the screen.
pub const HEIGHT: usize = 25;

/// Cells in a row.
pub const WIDTH: usize = 80;

/// The CRT controller's index port; its data port follows it.
pub const CRTPORT: u16 = 0x3D4;

/// The cell shown for a byte that has no glyph.
pub const UNPRINTABLE: u8 = 0xFE;

/// The sixteen text-mode colours.
#[derive(Debug, Clone, Copy, PartialEq, Eq, Structural)]
pub enum Color {
    Black,
    Blue,
    Green,
    Cyan,
    Red,
    Magenta,
    Brown,
    LightGray,
    DarkGray,
    LightBlue,
    LightGreen,
    LightCyan,
    LightRed,
    Pink,
    Yellow,
    White,
}

/// The hardware number of a colour.
pub open spec fn color_number(c: Color) -> u8 {
    match c {
        Color::Black => 0,
        Color::Blue => 1,
        Color::Green => 2,
        Color::Cyan => 3,
        Color::Red => 4,
        Color::Magenta => 5,
        Color::Brown => 6,
        Color::LightGray => 7,
        Color::DarkGray => 8,
        Color::LightBlue => 9,
        Color::LightGreen => 10,
        Color::LightCyan => 11,
        Color::LightRed => 12,
        Color::Pink => 13,
        Color::Yellow => 14,
        Color::White => 15,
    }
}

/// The hardware number of a colour.
pub fn color_value(c: Color) -> (r: u8)
    ensures
        r == color_number(c),
{
    match c {
        Color::Black => 0,
        Color::Blue => 1,
        Color::Green => 2,
        Color::Cyan => 3,
        Color::Red => 4,
        Color::Magenta => 5,
        Color::Brown => 6,
        Color::LightGray => 7,
        Color::DarkGray => 8,
        Color::LightBlue => 9,
        Color::LightGreen => 10,
        Color::LightCyan => 11,
        Color::LightRed => 12,
        Color::Pink => 13,
        Color::Yellow => 14,
        Color::White => 15,
    }
}

/// A foreground and a background colour, packed as the hardware reads them.
#[derive(Debug, Clone, Copy, PartialEq, Eq, Structural)]
pub struct ColorCode(pub u8);

impl ColorCode {
    /// `fg` on `bg`: the background in the high four bits.
    pub fn new(fg: Color, bg: Color) -> (r: Self)
        ensures
            r.0 == color_number(bg) * 16 + color_number(fg),
    {
        let f = color_value(fg);
        let b = color_value(bg);
        let v = (b << 4u8) | f;
        assert(v == b * 16 + f) by (bit_vector)
            requires
                v == (b << 4u8) | f,
                b < 16,
                f < 16,
        ;
        ColorCode(v)
    }
}

/// One character on the screen.
#[derive(Debug, Clone, Copy, PartialEq, Eq, Structural)]
pub struct ScreenCell {
    pub ascii: u8,
    pub color: ColorCode,
}

/// A space in colour `color`.
pub open spec fn blank(color: ColorCode) -> ScreenCell {
    ScreenCell { ascii: 0x20, color }
}

/// The screen moved up one row, with a blank row at the bottom.
pub open spec fn scrolled(cells: Seq<ScreenCell>, color: ColorCode) -> Seq<ScreenCell> {
    Seq::new(
        (HEIGHT * WIDTH) as nat,
        |i: int|
            if i < (HEIGHT - 1) * WIDTH {
                cells[i + WIDTH]
            } else {
                blank(color)
            },
    )
}

/// What a writer shows: its cursor's row and column, its colour and the cells.
pub struct WriterView {
    pub row: int,
    pub col: int,
    pub color: ColorCode,
    pub cells: Seq<ScreenCell>,
}

/// The state after a line break: the next row, or the screen scrolled when
/// the cursor is on the last row; the cursor goes to the start of the row.
pub open spec fn after_newline(s: WriterView) -> WriterView {
    if s.row == HEIGHT - 1 {
        WriterView { row: s.row, col: 0, color: s.color, cells: scrolled(s.cells, s.color) }
    } else {
        WriterView { row: s.row + 1, col: 0, color: s.color, cells: s.cells }
    }
}

/// The state after writing byte `b`: a line break for a newline; otherwise
/// the cell under the cursor, on a fresh line when the row is full.
pub open spec fn after_byte(s: WriterView, b: u8) -> WriterView {
    if b == 0x0A {
        after_newline(s)
    } else {
        let t = if s.col >= WIDTH {
            after_newline(s)
        } else {
            s
        };
        WriterView {
            row: t.row,
            col: t.col + 1,
            color: t.color,
            cells: t.cells.update(t.row * WIDTH + t.col, ScreenCell { ascii: b, color: t.color }),
        }
    }
}

/// The byte shown for `b`: itself when printable or a newline, else a box.
pub open spec fn shown(b: u8) -> u8 {
    if (0x20 <= b <= 0x7E) || b == 0x0A {
        b
    } else {
        UNPRINTABLE
    }
}

/// The state after writing the bytes of `bytes` in order.
pub open spec fn after_bytes(s: WriterView, bytes: Seq<u8>) -> WriterView
    decreases bytes.len(),
{
    if bytes.len() == 0 {
        s
    } else {
        after_bytes(after_byte(s, shown(bytes[0])), bytes.drop_first())
    }
}

/// A terminal on the text-mode screen.
pub struct Writer {
    column_position: usize,
    row_position: usize,
    color: ColorCode,
    cells: Vec<ScreenCell>,
}

impl View for Writer {
    type V = WriterView;

    closed spec fn view(&self) -> WriterView {
        WriterView {
            row: self.row_position as int,
            col: self.column_position as int,
            color: self.color,
            cells: self.cells@,
        }
    }
}

impl Writer {
    /// The cursor is on the screen and the screen is whole.
    pub open spec fn wf(&self) -> bool {
        &&& self@.cells.len() == HEIGHT * WIDTH
        &&& 0 <= self@.row < HEIGHT
        &&& 0 <= self@.col <= WIDTH
    }

    /// A blank screen in colour `color`, with the cursor at the top left.
    pub fn new(color: ColorCode) -> (r: Self)
        ensures
            r.wf(),
            r@.row == 0 && r@.col == 0 && r@.color == color,
            forall|i: int| 0 <= i < HEIGHT * WIDTH ==> #[trigger] r@.cells[i] == blank(color),
    {
        let mut cells: Vec<ScreenCell> = Vec::new();
        let mut i: usize = 0;
        while i < HEIGHT * WIDTH
            invariant
                i <= HEIGHT * WIDTH,
                cells@.len() == i,
                forall|j: int| 0 <= j < i ==> #[trigger] cells@[j] == blank(color),
            decreases HEIGHT * WIDTH - i,
        {
            cells.push(ScreenCell { ascii: 0x20u8, color });
            i = i + 1;
        }
        Writer { column_position: 0, row_position: 0, color, cells }
    }

    /// The cell at `row`, `col`.
    pub fn read(&self, row: usize, col: usize) -> (r: ScreenCell)
        requires
            self.wf(),
            row < HEIGHT,
            col < WIDTH,
        ensures
            r == self@.cells[row * WIDTH + col],
    {
        self.cells[row * WIDTH + col]
    }

    /// The cursor's offset from the top left, in cells.
    pub fn cursor(&self) -> (r: usize)
        requires
            self.wf(),
        ensures
            r == self@.row * WIDTH + self@.col,
    {
        self.row_position * WIDTH + self.column_position
    }

    /// The port writes that move the hardware cursor to this writer's
    /// cursor: each pair is a port and the byte written to it, in order.
    pub fn cursor_writes(&self) -> (r: [(u16, u8); 4])
        requires
            self.wf(),
        ensures
            r@[0] == (CRTPORT, 0x0Fu8),
            r@[1] == ((CRTPORT + 1) as u16, ((self@.row * WIDTH + self@.col) % 256) as u8),
            r@[2] == (CRTPORT, 0x0Eu8),
            r@[3] == ((CRTPORT + 1) as u16, ((self@.row * WIDTH + self@.col) / 256 % 256) as u8),
    {
        let pos = self.cursor();
        let lo = (pos & 0xFF) as u8;
        let hi = ((pos >> 8usize) & 0xFF) as u8;
        assert(lo == pos % 256 && hi == pos / 256 % 256) by (bit_vector)
            requires
                lo == (pos & 0xFF) as u8,
                hi == ((pos >> 8usize) & 0xFF) as u8,
        ;
        [(CRTPORT, 0x0F), (CRTPORT + 1, lo), (CRTPORT, 0x0E), (CRTPORT + 1, hi)]
    }

    /// Writes byte `b` at the cursor, or breaks the line for a newline.
    pub fn write_byte(&mut self, byte: u8)
        requires
            old(self).wf(),
        ensures
            final(self).wf(),
            final(self)@ == after_byte(old(self)@, byte),
    {
        if byte == 0x0Au8 {
            self.new_line();
        } else {
            if self.column_position >= WIDTH {
                self.new_line();
            }
            let cell = ScreenCell { ascii: byte, color: self.color };
            let idx = self.row_position * WIDTH + self.column_position;
            self.cells.set(idx, cell);
            self.column_position = self.column_position + 1;
        }
    }

    /// Writes the bytes of `s`, showing each byte that has no glyph as a box.
    pub fn write_string(&mut self, s: &str)
        requires
            old(self).wf(),
        ensures
            final(self).wf(),
            final(self)@ == after_bytes(old(self)@, s.spec_bytes()),
    {
        let bytes = s.as_bytes();
        let mut i: usize = 0;
        proof {
            assert(bytes@.subrange(0, bytes@.len() as int) =~= bytes@);
        }
        while i < bytes.len()
            invariant
                self.wf(),
                bytes@ == s.spec_bytes(),
                i <= bytes@.len(),
                after_bytes(old(self)@, bytes@) == after_bytes(self@, bytes@.subrange(
                    i as int,
                    bytes@.len() as int,
                )),
            decreases bytes@.len() - i,
        {
            let b = bytes[i];
            let shown_byte = if (0x20 <= b && b <= 0x7E) || b == 0x0Au8 {
                b
            } else {
                UNPRINTABLE
            };
            proof {
                let rest = bytes@.subrange(i as int, bytes@.len() as int);
                assert(rest.drop_first() =~= bytes@.subrange(i as int + 1, bytes@.len() as int));
            }
            self.write_byte(shown_byte);
            i = i + 1;
        }
        proof {
            assert(bytes@.subrange(bytes@.len() as int, bytes@.len() as int) =~= Seq::<u8>::empty());
        }
    }

    /// Breaks the line: the cursor goes to the start of the next row,
    /// scrolling the screen up when it is on the last row.
    fn new_line(&mut self)
        requires
            old(self).wf(),
        ensures
            final(self).wf(),
            final(self)@ == after_newline(old(self)@),
    {
        if self.row_position == HEIGHT - 1 {
            let mut i: usize = 0;
            while i < (HEIGHT - 1) * WIDTH
                invariant
                    self.cells@.len() == HEIGHT * WIDTH,
                    self.row_position == HEIGHT - 1,
                    self.color == old(self).color,
                    self.column_position == old(self).column_position,
                    self.row_position == old(self).row_position,
                    i <= (HEIGHT - 1) * WIDTH,
                    forall|j: int| 0 <= j < i ==> #[trigger] self.cells@[j] == old(self).cells@[j + WIDTH],
                    forall|j: int| i <= j < HEIGHT * WIDTH ==> #[trigger] self.cells@[j] == old(self).cells@[j],
                decreases (HEIGHT - 1) * WIDTH - i,
            {
                let cell = self.cells[i + WIDTH];
                self.cells.set(i, cell);
                i = i + 1;
            }
            self.clear_row(HEIGHT - 1);
            proof {
                assert(self.cells@ =~= scrolled(old(self).cells@, old(self).color));
            }
        } else {
            self.row_position = self.row_position + 1;
        }
        self.column_position = 0;
    }

    /// Fills row `row` with blanks in the current colour.
    fn clear_row(&mut self, row: usize)
        requires
            old(self).cells@.len() == HEIGHT * WIDTH,
            row < HEIGHT,
        ensures
            final(self).cells@.len() == HEIGHT * WIDTH,
            final(self).row_position == old(self).row_position,
            final(self).column_position == old(self).column_position,
            final(self).color == old(self).color,
            forall|j: int|
                0 <= j < HEIGHT * WIDTH ==> #[trigger] final(self).cells@[j] == if row * WIDTH <= j < (
                row + 1) * WIDTH {
                    blank(old(self).color)
                } else {
                    old(self).cells@[j]
                },
    {
        let blank_cell = ScreenCell { ascii: 0x20u8, color: self.color };
        let mut col: usize = 0;
        while col < WIDTH
            invariant
                self.cells@.len() == HEIGHT * WIDTH,
                self.row_position == old(self).row_position,
                self.column_position == old(self).column_position,
                self.color == old(self).color,
                blank_cell == blank(old(self).color),
                row < HEIGHT,
                col <= WIDTH,
                forall|j: int|
                    0 <= j < HEIGHT * WIDTH ==> #[trigger] self.cells@[j] == if row * WIDTH <= j < row
                        * WIDTH + col {
                        blank(old(self).color)
                    } else {
                        old(self).cells@[j]
                    },
            decreases WIDTH - col,
        {
            self.cells.set(row * WIDTH + col, blank_cell);
            col = col + 1;
        }
    }

    /// Fills the whole screen with blanks in the current colour.
    pub fn clear_screen(&mut self)
        requires
            old(self).wf(),
        ensures
            final(self).wf(),
            final(self)@.row == old(self)@.row,
            final(self)@.col == old(self)@.col,
            final(self)@.color == old(self)@.color,
            forall|j: int| 0 <= j < HEIGHT * WIDTH ==> #[trigger] final(self)@.cells[j] == blank(
                old(self)@.color,
            ),
    {
        let mut r: usize = 0;
        while r < HEIGHT
            invariant
                self.wf(),
                self.row_position == old(self).row_position,
                self.column_position == old(self).column_position,
                self.color == old(self).color,
                r <= HEIGHT,
                forall|j: int| 0 <= j < r * WIDTH ==> #[trigger] self.cells@[j] == blank(old(self).color),
            decreases HEIGHT - r,
        {
            self.clear_row(r);
            r = r + 1;
        }
    }

    /// Writes in colour `color` from now on.
    pub fn change_color(&mut self, color: ColorCode)
        requires
            old(self).wf(),
        ensures
            final(self).wf(),
            final(self)@ == (WriterView { color, ..old(self)@ }),
    {
        self.color = color;
    }
}

} // verus!
