//! The VGA text-mode colour attribute: a foreground and a background colour
//! packed into one byte, background in the high nibble.

use vstd::prelude::*;

verus! {

/// The sixteen colours of the VGA text-mode palette.
#[derive(Clone, Copy)]
pub enum Color {
    Black,
    Blue,
    Green,
    Cyan,
    Red,
    Magenta,
    Brown,
    Gray,
    DarkGray,
    BrightBlue,
    BrightGreen,
    BrightCyan,
    BrightRed,
    BrightMagenta,
    Yellow,
    White,
}

impl Color {
    /// The palette number of the colour, between 0 and 15.
    pub open spec fn spec_value(self) -> u8 {
        match self {
            Color::Black => 0x0,
            Color::Blue => 0x1,
            Color::Green => 0x2,
            Color::Cyan => 0x3,
            Color::Red => 0x4,
            Color::Magenta => 0x5,
            Color::Brown => 0x6,
            Color::Gray => 0x7,
            Color::DarkGray => 0x8,
            Color::BrightBlue => 0x9,
            Color::BrightGreen => 0xA,
            Color::BrightCyan => 0xB,
            Color::BrightRed => 0xC,
            Color::BrightMagenta => 0xD,
            Color::Yellow => 0xE,
            Color::White => 0xF,
        }
    }

    /// The palette number of the colour.
    pub fn value(self) -> (r: u8)
        ensures
            r == self.spec_value(),
            r < 16,
    {
        match self {
            Color::Black => 0x0,
            Color::Blue => 0x1,
            Color::Green => 0x2,
            Color::Cyan => 0x3,
            Color::Red => 0x4,
            Color::Magenta => 0x5,
            Color::Brown => 0x6,
            Color::Gray => 0x7,
            Color::DarkGray => 0x8,
            Color::BrightBlue => 0x9,
            Color::BrightGreen => 0xA,
            Color::BrightCyan => 0xB,
            Color::BrightRed => 0xC,
            Color::BrightMagenta => 0xD,
            Color::Yellow => 0xE,
            Color::White => 0xF,
        }
    }
}

/// A position on the screen and the colours to draw with.
pub struct Cursor {
    pub position: isize,
    pub foreground: Color,
    pub background: Color,
}

impl Cursor {
    /// The attribute byte for the cursor's colours: the foreground palette
    /// number in the low nibble, the background in the high one.
    pub fn color(&self) -> (r: u8)
        ensures
            r == self.foreground.spec_value() + self.background.spec_value() * 16,
    {
        let fg = self.foreground.value();
        let bg = self.background.value() << 4;
        let r = fg | bg;
        proof {
            let f = self.foreground.spec_value();
            let b = self.background.spec_value();
            assert(f < 16 && b < 16 ==> (f | (b << 4)) == f + b * 16) by (bit_vector);
        }
        r
    }
}

} // verus!
