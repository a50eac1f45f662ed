use vstd::prelude::*;

verus! {

/// Fixed size of the panel in pixels. Every full or partial operation is
/// addressed within `[0, width) x [0, height)`.
#[derive(Clone, Copy, Debug, PartialEq, Eq, Structural)]
pub struct PanelGeometry {
    pub width: u16,
    pub height: u16,
}

impl PanelGeometry {
    /// Rows are stored eight pixels to a byte, so the width must be a whole
    /// number of bytes; band scheduling likewise steps in eight-row bands.
    pub open spec fn wf(self) -> bool {
        &&& 0 < self.width
        &&& 0 < self.height
        &&& self.width % 8 == 0
        &&& self.height % 8 == 0
    }

    /// Bytes in one stored row.
    pub open spec fn row_bytes(self) -> int {
        self.width as int / 8
    }

    /// Bytes in the whole frame buffer.
    pub open spec fn buffer_len(self) -> int {
        self.row_bytes() * self.height as int
    }
}

/// A rectangle of the pixel surface: the subset pushed by a partial update.
#[derive(Clone, Copy, Debug, PartialEq, Eq, Structural)]
pub struct Region {
    pub x: u16,
    pub y: u16,
    pub width: u16,
    pub height: u16,
}

impl Region {
    /// The whole rectangle lies inside the panel.
    pub open spec fn in_bounds(self, g: PanelGeometry) -> bool {
        &&& self.x + self.width <= g.width
        &&& self.y + self.height <= g.height
    }

    /// Pixel `(px, py)` lies inside the rectangle.
    pub open spec fn contains(self, px: int, py: int) -> bool {
        &&& self.x <= px < self.x + self.width
        &&& self.y <= py < self.y + self.height
    }

    /// Pixel `(px, py)` lies on the one-pixel border of the rectangle.
    pub open spec fn on_border(self, px: int, py: int) -> bool {
        &&& self.contains(px, py)
        &&& {
            ||| px == self.x
            ||| px == self.x + self.width - 1
            ||| py == self.y
            ||| py == self.y + self.height - 1
        }
    }

    /// First byte column covered by the rectangle, rounding left edge down
    /// to its byte.
    pub open spec fn byte_start(self) -> int {
        self.x as int / 8
    }

    /// One past the last byte column covered, rounding the right edge up to
    /// a whole byte.
    pub open spec fn byte_end(self) -> int {
        (self.x + self.width + 7) / 8
    }

    /// Bounds check against the panel, exactly `in_bounds`.
    pub fn valid(&self, g: &PanelGeometry) -> (ok: bool)
        ensures
            ok == self.in_bounds(*g),
    {
        self.x as u32 + self.width as u32 <= g.width as u32
            && self.y as u32 + self.height as u32 <= g.height as u32
    }
}

} // verus!
