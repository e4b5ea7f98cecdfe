//! Layout of console text in 8 x 16 glyphs: where each character of a message
//! lands on the screen, with line breaks, wrapping at the right edge and a
//! restart at the top when the screen is full. Drawing is left to the caller.

use vstd::prelude::*;

verus! {

/// Width of a glyph in pixels.
pub const GLYPH_WIDTH: usize = 8;

/// Height of a glyph in pixels.
pub const GLYPH_HEIGHT: usize = 16;

/// Distance between the tops of two lines of text.
pub const LINE_HEIGHT: usize = 18;

/// Room that a message needs below the row it starts in.
pub const LINE_ROOM: usize = 20;

/// Number of glyphs of the font.
pub const GLYPH_COUNT: usize = 128;

/// Where the next glyph goes.
#[derive(Clone, Copy, Debug, PartialEq, Eq, Structural)]
pub struct TextCursor {
    /// Left edge of the next glyph.
    pub x: usize,
    /// Top of the current line.
    pub row: usize,
}

/// A glyph of the font and the place of its upper left corner.
#[derive(Clone, Copy, Debug, PartialEq, Eq, Structural)]
pub struct GlyphCell {
    pub glyph: usize,
    pub x: usize,
    pub y: usize,
}

/// The screen is small enough for the cursor's arithmetic.
pub open spec fn screen_fits(width: usize, height: usize) -> bool {
    width <= usize::MAX - 16 && height <= usize::MAX - 40
}

/// The row in which a message starts: the top of the screen when less than
/// `LINE_ROOM` rows are left below `row`.
pub open spec fn first_row(row: usize, height: usize) -> usize {
    if row + 20 >= height {
        0
    } else {
        row
    }
}

/// The row of the line after the one at `row`: the top of the screen when
/// the screen is full.
pub open spec fn row_below(row: usize, height: usize) -> usize {
    if row + 18 >= height {
        0
    } else {
        (row + 18) as usize
    }
}

/// Index of the glyph of a character: its code's lowest seven bits.
pub open spec fn glyph_of(c: char) -> usize {
    (c as u32 % 128) as usize
}

/// The cursor after the character `c`.
pub open spec fn cursor_after(cursor: TextCursor, c: char, width: usize, height: usize) -> TextCursor {
    if c == '\n' {
        TextCursor { x: 0, row: row_below(cursor.row, height) }
    } else if cursor.x + 8 > width {
        TextCursor { x: 8, row: row_below(cursor.row, height) }
    } else {
        TextCursor { x: (cursor.x + 8) as usize, row: cursor.row }
    }
}

/// The glyph that the character `c` puts on the screen, if any.
pub open spec fn cell_of(cursor: TextCursor, c: char, width: usize, height: usize) -> Option<
    GlyphCell,
> {
    if c == '\n' {
        None
    } else if cursor.x + 8 > width {
        Some(GlyphCell { glyph: glyph_of(c), x: 0, y: row_below(cursor.row, height) })
    } else {
        Some(GlyphCell { glyph: glyph_of(c), x: cursor.x, y: cursor.row })
    }
}

/// Pixel `col` of a glyph row, counted from the left, is foreground: the
/// leftmost pixel is the highest bit.
pub open spec fn glyph_bit(row_bits: u8, col: int) -> bool {
    (row_bits as int / pixel_weight(col)) % 2 == 1
}

/// Value of the bit that stands for pixel `col` of a glyph row.
pub open spec fn pixel_weight(col: int) -> int {
    if col == 0 {
        128
    } else if col == 1 {
        64
    } else if col == 2 {
        32
    } else if col == 3 {
        16
    } else if col == 4 {
        8
    } else if col == 5 {
        4
    } else if col == 6 {
        2
    } else {
        1
    }
}

impl TextCursor {
    /// The cursor stays within one line's height of the screen.
    pub open spec fn wf(&self, width: usize, height: usize) -> bool {
        &&& self.x <= width || self.x <= 8
        &&& self.row <= height + 18
    }

    /// The cursor at the start of a message, given the row that the last
    /// message left.
    pub fn begin(row: usize, height: usize) -> (cursor: Self)
        requires
            row <= height + 18,
            height <= usize::MAX - 40,
        ensures
            cursor == (TextCursor { x: 0, row: first_row(row, height) }),
            cursor.row < height || cursor.row == 0,
    {
        let row: usize = if row + LINE_ROOM >= height {
            0
        } else {
            row
        };
        TextCursor { x: 0, row }
    }

    /// Takes the next character of the message: moves the cursor, and says
    /// which glyph to draw where. A line feed draws nothing.
    pub fn place(&mut self, c: char, width: usize, height: usize) -> (cell: Option<GlyphCell>)
        requires
            screen_fits(width, height),
            old(self).wf(width, height),
        ensures
            final(self).wf(width, height),
            *final(self) == cursor_after(*old(self), c, width, height),
            cell == cell_of(*old(self), c, width, height),
            cell matches Some(g) ==> g.glyph < GLYPH_COUNT,
    {
        if c == '\n' {
            self.x = 0;
            self.next_line(height);
            return None;
        }
        if self.x + GLYPH_WIDTH > width {
            self.x = 0;
            self.next_line(height);
        }
        let code: u32 = c as u32;
        let index: usize = (code & 0x7F) as usize;
        assert(code & 0x7F == code % 128) by (bit_vector);
        let cell = GlyphCell { glyph: index, x: self.x, y: self.row };
        self.x = self.x + GLYPH_WIDTH;
        Some(cell)
    }

    /// Moves to the line below, or to the top when the screen is full.
    fn next_line(&mut self, height: usize)
        requires
            old(self).row <= height + 18,
            height <= usize::MAX - 40,
        ensures
            final(self).x == old(self).x,
            final(self).row == row_below(old(self).row, height),
    {
        self.row = self.row + LINE_HEIGHT;
        if self.row >= height {
            self.row = 0;
        }
    }

    /// The row that the message leaves for the next one.
    pub fn finish(self, height: usize) -> (row: usize)
        requires
            self.row <= height + 18,
            height <= usize::MAX - 40,
        ensures
            row == self.row + 18,
    {
        self.row + LINE_HEIGHT
    }
}

/// Whether pixel `col` of a glyph row is foreground.
pub fn glyph_pixel(row_bits: u8, col: usize) -> (set: bool)
    requires
        col < 8,
    ensures
        set == glyph_bit(row_bits, col as int),
{
    let shift: usize = 7 - col;
    let set: bool = (row_bits >> shift) & 1 == 1;
    proof {
        lemma_glyph_bit(row_bits, shift);
    }
    set
}

proof fn lemma_glyph_bit(row_bits: u8, shift: usize)
    requires
        shift < 8,
    ensures
        ((row_bits >> shift) & 1 == 1) == glyph_bit(row_bits, 7 - shift),
{
    assert((row_bits >> shift) & 1 == (if shift == 0 {
        row_bits % 2
    } else if shift == 1 {
        (row_bits / 2) % 2
    } else if shift == 2 {
        (row_bits / 4) % 2
    } else if shift == 3 {
        (row_bits / 8) % 2
    } else if shift == 4 {
        (row_bits / 16) % 2
    } else if shift == 5 {
        (row_bits / 32) % 2
    } else if shift == 6 {
        (row_bits / 64) % 2
    } else {
        (row_bits / 128) % 2
    })) by (bit_vector)
        requires
            shift < 8,
    ;
}

} // verus!
