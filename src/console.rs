//! The 80x25 text-mode console: a grid of (character, colour) cells that
//! scrolls up by one row on every newline.
use vstd::prelude::*;
use vstd::string::StringSliceAdditionalSpecFns;
use vstd::string::StrSliceExecFns;

verus! {

/// Number of rows on the screen.
pub const BUFFER_HEIGHT: usize = 25;

/// Number of columns on the screen.
pub const BUFFER_WIDTH: usize = 80;

/// Number of cells on the screen.
pub const BUFFER_CELLS: usize = 2000;

/// First cell of the last row.
pub const LAST_ROW_START: usize = 1920;

/// Glyph shown in place of a byte that is not printable ASCII.
pub const PLACEHOLDER: u8 = 0xfe;

/// The sixteen colours of the text mode.
#[derive(Debug, Clone, Copy, PartialEq, Eq, Structural)]
pub enum Color {
    Black,
    Blue,
    Green,
    Cyan,
    Red,
    Magenta,
    Brown,
    LightGray,
    DarkGray,
    LightBlue,
    LightGreen,
    LightCyan,
    LightRed,
    Pink,
    Yellow,
    White,
}

/// The hardware number of a colour.
pub open spec fn color_value(c: Color) -> u8 {
    match c {
        Color::Black => 0,
        Color::Blue => 1,
        Color::Green => 2,
        Color::Cyan => 3,
        Color::Red => 4,
        Color::Magenta => 5,
        Color::Brown => 6,
        Color::LightGray => 7,
        Color::DarkGray => 8,
        Color::LightBlue => 9,
        Color::LightGreen => 10,
        Color::LightCyan => 11,
        Color::LightRed => 12,
        Color::Pink => 13,
        Color::Yellow => 14,
        Color::White => 15,
    }
}

impl Color {
    /// The hardware number of this colour, 0 to 15.
    pub fn value(self) -> (r: u8)
        ensures
            r == color_value(self),
            r < 16,
    {
        match self {
            Color::Black => 0,
            Color::Blue => 1,
            Color::Green => 2,
            Color::Cyan => 3,
            Color::Red => 4,
            Color::Magenta => 5,
            Color::Brown => 6,
            Color::LightGray => 7,
            Color::DarkGray => 8,
            Color::LightBlue => 9,
            Color::LightGreen => 10,
            Color::LightCyan => 11,
            Color::LightRed => 12,
            Color::Pink => 13,
            Color::Yellow => 14,
            Color::White => 15,
        }
    }
}

/// A colour attribute byte: background in the high four bits, foreground
/// in the low four.
#[derive(Debug, Clone, Copy, PartialEq, Eq, Structural)]
pub struct ColorCode(pub u8);

impl ColorCode {
    pub fn new(foreground: Color, background: Color) -> (r: ColorCode)
        ensures
            r.0 == color_value(background) * 16 + color_value(foreground),
    {
        let fg = foreground.value();
        let bg = background.value();
        ColorCode(bg * 16 + fg)
    }
}

/// One cell of the screen.
#[derive(Debug, Clone, Copy, PartialEq, Eq, Structural)]
pub struct ScreenChar {
    pub ascii_character: u8,
    pub color_code: ColorCode,
}

/// The byte that a cell shows for `b`: printable ASCII as it is, anything
/// else as the placeholder glyph.
pub open spec fn shown_byte(b: u8) -> u8 {
    if 0x20 <= b && b <= 0x7e {
        b
    } else {
        PLACEHOLDER
    }
}

/// A blank cell in the given colour.
pub open spec fn blank(color: ColorCode) -> ScreenChar {
    ScreenChar { ascii_character: 0x20, color_code: color }
}

/// Row-major index of the cell at `row`, `col`.
pub open spec fn cell_index(row: int, col: int) -> int {
    row * BUFFER_WIDTH + col
}

/// The screen after one newline: every row moves up by one, the first row
/// is lost and the last row is blank.
pub open spec fn scrolled(cells: Seq<ScreenChar>, color: ColorCode) -> Seq<ScreenChar> {
    Seq::new(
        BUFFER_CELLS as nat,
        |i: int|
            if i < LAST_ROW_START {
                cells[i + BUFFER_WIDTH]
            } else {
                blank(color)
            },
    )
}

/// Screen and cursor column after writing one byte.
pub open spec fn step(cells: Seq<ScreenChar>, col: nat, color: ColorCode, b: u8) -> (Seq<ScreenChar>, nat) {
    if b == 0x0a {
        (scrolled(cells, color), 0)
    } else if col >= BUFFER_WIDTH {
        (
            scrolled(cells, color).update(
                LAST_ROW_START as int,
                ScreenChar { ascii_character: shown_byte(b), color_code: color },
            ),
            1,
        )
    } else {
        (
            cells.update(
                LAST_ROW_START + col,
                ScreenChar { ascii_character: shown_byte(b), color_code: color },
            ),
            col + 1,
        )
    }
}

/// Screen and cursor column after writing the bytes `bs` in order.
pub open spec fn steps(cells: Seq<ScreenChar>, col: nat, color: ColorCode, bs: Seq<u8>) -> (Seq<ScreenChar>, nat)
    decreases bs.len(),
{
    if bs.len() == 0 {
        (cells, col)
    } else {
        let prev = steps(cells, col, color, bs.drop_last());
        step(prev.0, prev.1, color, bs.last())
    }
}

/// Writing a byte other than newline while the last row has room changes
/// exactly one cell, the one at the cursor, and no other.
pub proof fn lemma_write_byte_changes_one_cell(cells: Seq<ScreenChar>, col: nat, color: ColorCode, b: u8)
    requires
        cells.len() == BUFFER_CELLS,
        col < BUFFER_WIDTH,
        b != 0x0a,
    ensures
        step(cells, col, color, b).0.len() == BUFFER_CELLS,
        step(cells, col, color, b).0[cell_index(BUFFER_HEIGHT - 1, col as int)] == (ScreenChar {
            ascii_character: shown_byte(b),
            color_code: color,
        }),
        forall|j: int|
            0 <= j < BUFFER_CELLS && j != cell_index(BUFFER_HEIGHT - 1, col as int) ==> #[trigger] step(
                cells,
                col,
                color,
                b,
            ).0[j] == cells[j],
        step(cells, col, color, b).1 == col + 1,
{
}

/// A newline moves every row but the first up by one, drops the first row,
/// leaves the last row blank and puts the cursor at the start of it; a byte
/// written to a full row does the same before it is placed.
pub proof fn lemma_newline_scrolls(cells: Seq<ScreenChar>, col: nat, color: ColorCode)
    requires
        cells.len() == BUFFER_CELLS,
    ensures
        step(cells, col, color, 0x0a).0.len() == BUFFER_CELLS,
        forall|row: int, c: int|
            0 <= row < BUFFER_HEIGHT - 1 && 0 <= c < BUFFER_WIDTH ==> #[trigger] step(cells, col, color, 0x0a).0[cell_index(
                row,
                c,
            )] == cells[cell_index(row + 1, c)],
        forall|c: int|
            0 <= c < BUFFER_WIDTH ==> #[trigger] step(cells, col, color, 0x0a).0[cell_index(BUFFER_HEIGHT - 1, c)]
                == blank(color),
        step(cells, col, color, 0x0a).1 == 0,
{
    assert forall|row: int, c: int| 0 <= row < BUFFER_HEIGHT - 1 && 0 <= c < BUFFER_WIDTH implies #[trigger] step(
        cells,
        col,
        color,
        0x0a,
    ).0[cell_index(row, c)] == cells[cell_index(row + 1, c)] by {
        assert(cell_index(row, c) < LAST_ROW_START) by (nonlinear_arith)
            requires
                0 <= row < 24,
                0 <= c < 80,
        ;
        assert(cell_index(row, c) + BUFFER_WIDTH == cell_index(row + 1, c)) by (nonlinear_arith);
    }
}

/// Writes bytes to the last row of a screen, scrolling on newline and
/// when a row is full.
pub struct Writer {
    column_position: usize,
    color_code: ColorCode,
    buffer: Vec<ScreenChar>,
}

impl Writer {
    /// The screen, row by row.
    pub closed spec fn cells(&self) -> Seq<ScreenChar> {
        self.buffer@
    }

    /// The column at which the next byte goes.
    pub closed spec fn column(&self) -> nat {
        self.column_position as nat
    }

    /// The colour of what is written.
    pub closed spec fn color(&self) -> ColorCode {
        self.color_code
    }

    pub closed spec fn wf(&self) -> bool {
        &&& self.buffer@.len() == BUFFER_CELLS
        &&& self.column_position <= BUFFER_WIDTH
    }

    /// A well-formed writer covers the whole screen and its cursor is on it.
    pub proof fn lemma_wf(&self)
        requires
            self.wf(),
        ensures
            self.cells().len() == BUFFER_CELLS,
            self.column() <= BUFFER_WIDTH,
    {
    }

    /// A writer in `color_code` over a screen whose every cell is `fill`.
    pub fn new(color_code: ColorCode, fill: ScreenChar) -> (w: Writer)
        ensures
            w.wf(),
            w.cells().len() == BUFFER_CELLS,
            w.cells() == Seq::new(BUFFER_CELLS as nat, |i: int| fill),
            w.column() == 0,
            w.color() == color_code,
    {
        let mut buffer: Vec<ScreenChar> = Vec::new();
        let mut i: usize = 0;
        while i < BUFFER_CELLS
            invariant
                i <= BUFFER_CELLS,
                buffer@.len() == i,
                forall|j: int| 0 <= j < i ==> buffer@[j] == fill,
            decreases BUFFER_CELLS - i,
        {
            buffer.push(fill);
            i = i + 1;
        }
        assert(buffer@ == Seq::new(BUFFER_CELLS as nat, |i: int| fill));
        Writer { column_position: 0, color_code, buffer }
    }

    pub fn color_code(&self) -> (r: ColorCode)
        ensures
            r == self.color(),
    {
        self.color_code
    }

    pub fn column_position(&self) -> (r: usize)
        ensures
            r == self.column(),
    {
        self.column_position
    }

    /// The cell at `row`, `col`.
    pub fn cell(&self, row: usize, col: usize) -> (r: ScreenChar)
        requires
            self.wf(),
            row < BUFFER_HEIGHT,
            col < BUFFER_WIDTH,
        ensures
            r == self.cells()[cell_index(row as int, col as int)],
    {
        self.buffer[row * BUFFER_WIDTH + col]
    }

    /// Writes every byte of `s` in order; bytes other than newline that are
    /// not printable ASCII show as the placeholder glyph.
    pub fn write_string(&mut self, s: &str)
        requires
            old(self).wf(),
        ensures
            final(self).wf(),
            final(self).cells().len() == BUFFER_CELLS,
            final(self).column() <= BUFFER_WIDTH,
            final(self).color() == old(self).color(),
            (final(self).cells(), final(self).column()) == steps(
                old(self).cells(),
                old(self).column(),
                old(self).color(),
                s.spec_bytes(),
            ),
    {
        let bytes = s.as_bytes_vec();
        let mut i: usize = 0;
        while i < bytes.len()
            invariant
                self.wf(),
                self.color() == old(self).color(),
                i <= bytes@.len(),
                bytes@ == s.spec_bytes(),
                (self.cells(), self.column()) == steps(
                    old(self).cells(),
                    old(self).column(),
                    old(self).color(),
                    bytes@.subrange(0, i as int),
                ),
            decreases bytes@.len() - i,
        {
            proof {
                assert(bytes@.subrange(0, i as int + 1).drop_last() == bytes@.subrange(0, i as int));
            }
            self.write_byte(bytes[i]);
            i = i + 1;
        }
        assert(bytes@.subrange(0, i as int) == bytes@);
    }

    /// Writes one byte. A newline scrolls the screen; any other byte goes to
    /// the cursor on the last row (after a scroll if that row is full) and
    /// moves the cursor right.
    pub fn write_byte(&mut self, byte: u8)
        requires
            old(self).wf(),
        ensures
            final(self).wf(),
            final(self).cells().len() == BUFFER_CELLS,
            final(self).column() <= BUFFER_WIDTH,
            final(self).color() == old(self).color(),
            (final(self).cells(), final(self).column()) == step(
                old(self).cells(),
                old(self).column(),
                old(self).color(),
                byte,
            ),
    {
        if byte == 0x0a {
            self.new_line();
        } else {
            if self.column_position >= BUFFER_WIDTH {
                self.new_line();
            }
            let shown = if 0x20 <= byte && byte <= 0x7e {
                byte
            } else {
                PLACEHOLDER
            };
            let col = self.column_position;
            let c = ScreenChar { ascii_character: shown, color_code: self.color_code };
            self.buffer.set(LAST_ROW_START + col, c);
            self.column_position = col + 1;
        }
    }

    /// Moves every row up by one, discarding the first, blanks the last row
    /// and puts the cursor at its start.
    fn new_line(&mut self)
        requires
            old(self).wf(),
        ensures
            final(self).wf(),
            final(self).color() == old(self).color(),
            final(self).cells() == scrolled(old(self).cells(), old(self).color()),
            final(self).column() == 0,
    {
        let mut i: usize = 0;
        while i < LAST_ROW_START
            invariant
                self.wf(),
                self.color() == old(self).color(),
                i <= LAST_ROW_START,
                forall|j: int| 0 <= j < i ==> self.buffer@[j] == old(self).buffer@[j + BUFFER_WIDTH],
                forall|j: int| i <= j < BUFFER_CELLS ==> self.buffer@[j] == old(self).buffer@[j],
            decreases LAST_ROW_START - i,
        {
            let c = self.buffer[i + BUFFER_WIDTH];
            self.buffer.set(i, c);
            i = i + 1;
        }
        let ghost moved = self.buffer@;
        self.clear_line(BUFFER_HEIGHT - 1);
        // Brings the postcondition of clear_line into play.
        assert(self.cells()[0] == moved[0]);
        self.column_position = 0;
        assert forall|j: int| 0 <= j < BUFFER_CELLS implies #[trigger] self.buffer@[j] == scrolled(
            old(self).cells(),
            old(self).color(),
        )[j] by {
            if j < LAST_ROW_START {
                assert(self.cells()[j] == moved[j]);
            }
        }
        assert(self.buffer@ =~= scrolled(old(self).cells(), old(self).color()));
    }

    /// Fills `row` with blanks in the writer's colour.
    fn clear_line(&mut self, row: usize)
        requires
            old(self).wf(),
            row < BUFFER_HEIGHT,
        ensures
            final(self).wf(),
            final(self).color() == old(self).color(),
            final(self).column() == old(self).column(),
            forall|j: int|
                0 <= j < BUFFER_CELLS ==> final(self).cells()[j] == if row * BUFFER_WIDTH <= j < (row + 1)
                    * BUFFER_WIDTH {
                    blank(old(self).color())
                } else {
                    old(self).cells()[j]
                },
    {
        let blank_cell = ScreenChar { ascii_character: 0x20, color_code: self.color_code };
        let start = row * BUFFER_WIDTH;
        let mut col: usize = 0;
        while col < BUFFER_WIDTH
            invariant
                self.wf(),
                self.color() == old(self).color(),
                self.column() == old(self).column(),
                start == row * BUFFER_WIDTH,
                row < BUFFER_HEIGHT,
                col <= BUFFER_WIDTH,
                blank_cell == blank(old(self).color()),
                forall|j: int|
                    0 <= j < BUFFER_CELLS ==> self.buffer@[j] == if start <= j < start + col {
                        blank_cell
                    } else {
                        old(self).buffer@[j]
                    },
            decreases BUFFER_WIDTH - col,
        {
            self.buffer.set(start + col, blank_cell);
            col = col + 1;
        }
    }
}

} // verus!
