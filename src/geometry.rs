use vstd::prelude::*;

verus! {

/// A cell coordinate or a size, in signed 16-bit components.
#[derive(Clone, Copy, Debug, PartialEq, Eq, Structural)]
pub struct Vec2i16 {
    pub x: i16,
    pub y: i16,
}

/// An axis-aligned rectangle of cells.
#[derive(Clone, Copy, Debug, PartialEq, Eq, Structural)]
pub struct Square {
    pub position: Vec2i16,
    pub size: Vec2i16,
}

/// The glyph that a blank cell holds.
pub const SPACE_CHAR: u8 = 32;
/// The glyph that a filled cell holds.
pub const BOX_CHAR: u8 = 178;

/// Whether the rectangle holds the cell at (x, y).
pub open spec fn contains(sq: Square, x: int, y: int) -> bool {
    &&& sq.position.x <= x < sq.position.x + sq.size.x
    &&& sq.position.y <= y < sq.position.y + sq.size.y
}

/// Whether some cell of the rectangle has the row-major index `i` on a grid
/// of the given width.
pub open spec fn covers(sq: Square, width: int, i: int) -> bool {
    exists|y: int, x: int| #[trigger] contains(sq, x, y) && y * width + x == i
}

/// The cell (column, row) of a row-major index.
pub fn cell_of_index(index: usize, width: i16) -> (c: Vec2i16)
    requires
        width > 0,
        (index as int) / (width as int) <= i16::MAX,
    ensures
        c.x == (index as int) % (width as int),
        c.y == (index as int) / (width as int),
{
    let w = width as usize;
    let x = (index % w) as i16;
    let y = (index / w) as i16;
    Vec2i16 { x, y }
}

} // verus!
