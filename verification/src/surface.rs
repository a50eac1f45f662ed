use crate::geometry::{PanelGeometry, Region};
use vstd::arithmetic::div_mod::{
    lemma_div_is_ordered, lemma_fundamental_div_mod, lemma_fundamental_div_mod_converse,
};
use vstd::prelude::*;

verus! {

/// Bit `bit` (7 is the leftmost pixel of the byte) of a stored byte.
pub open spec fn bit_set(byte: u8, bit: u8) -> bool
    recommends
        bit < 8,
{
    byte & (1u8 << bit) != 0
}

proof fn lemma_bit_update(b: u8, i: u8, j: u8)
    by (bit_vector)
    requires
        i < 8,
        j < 8,
    ensures
        (b | (1u8 << i)) & (1u8 << i) != 0,
        (b & !(1u8 << i)) & (1u8 << i) == 0,
        i != j ==> ((b | (1u8 << i)) & (1u8 << j) != 0) == (b & (1u8 << j) != 0),
        i != j ==> ((b & !(1u8 << i)) & (1u8 << j) != 0) == (b & (1u8 << j) != 0),
{
}

proof fn lemma_zero_byte_clear(j: u8)
    by (bit_vector)
    requires
        j < 8,
    ensures
        0u8 & (1u8 << j) == 0,
{
}

/// `(py, px / 8)` maps to a distinct byte index for every cell of the grid.
proof fn lemma_cell_index_injective(rb: int, y1: int, c1: int, y2: int, c2: int)
    by (nonlinear_arith)
    requires
        0 <= c1 < rb,
        0 <= c2 < rb,
        0 <= y1,
        0 <= y2,
        y1 * rb + c1 == y2 * rb + c2,
    ensures
        y1 == y2,
        c1 == c2,
{
}

/// The byte index of an in-bounds pixel lies inside the buffer.
proof fn lemma_pixel_index_in_range(g: PanelGeometry, px: int, py: int)
    by (nonlinear_arith)
    requires
        g.wf(),
        0 <= px < g.width,
        0 <= py < g.height,
    ensures
        0 <= py * g.row_bytes() + px / 8 < g.buffer_len(),
        0 <= px / 8 < g.row_bytes(),
        0 <= px % 8 < 8,
{
}

/// The level a rectangle gives a pixel inside it: the one-pixel border takes
/// the stroke level, the interior the fill level.
pub open spec fn rect_value(r: Region, fill: bool, stroke: bool, px: int, py: int) -> bool {
    if r.on_border(px, py) {
        stroke
    } else {
        fill
    }
}

/// Packed rows of the four-by-six glyph of a decimal digit: one nibble per
/// row, the top row in the highest used nibble, the leftmost column in the
/// highest bit of its nibble. A character outside the glyph set has no set
/// bits, so drawing it paints nothing.
pub open spec fn glyph_bits(c: char) -> u32 {
    match c {
        '0' => 0xEAAAE0,
        '1' => 0x4C44E0,
        '2' => 0xE2E8E0,
        '3' => 0xE262E0,
        '4' => 0xAAE220,
        '5' => 0xE8E2E0,
        '6' => 0xE8EAE0,
        '7' => 0xE22440,
        '8' => 0xEAEAE0,
        '9' => 0xEAE2E0,
        _ => 0,
    }
}

fn glyph_bits_exec(c: char) -> (g: u32)
    ensures
        g == glyph_bits(c),
{
    match c {
        '0' => 0xEAAAE0,
        '1' => 0x4C44E0,
        '2' => 0xE2E8E0,
        '3' => 0xE262E0,
        '4' => 0xAAE220,
        '5' => 0xE8E2E0,
        '6' => 0xE8EAE0,
        '7' => 0xE22440,
        '8' => 0xEAEAE0,
        '9' => 0xEAE2E0,
        _ => 0,
    }
}

/// Bit of the glyph of `c` at column `col`, row `row` of its cell.
pub open spec fn glyph_bit(c: char, col: int, row: int) -> bool
    recommends
        0 <= col < 4,
        0 <= row < 6,
{
    (glyph_bits(c) >> (((5 - row) * 4 + (3 - col)) as u32)) & 1 == 1
}

/// The glyph of `c`, anchored at `(x0, y0)`, paints pixel `(px, py)`.
pub open spec fn glyph_paints(c: char, x0: int, y0: int, px: int, py: int) -> bool {
    &&& x0 <= px < x0 + 4
    &&& y0 <= py < y0 + 6
    &&& glyph_bit(c, px - x0, py - y0)
}

/// Some glyph of `text`, laid out left to right from `(x0, y0)` with a
/// five-pixel advance, paints pixel `(px, py)`.
pub open spec fn text_paints(text: Seq<char>, x0: int, y0: int, px: int, py: int) -> bool {
    exists|j: int| 0 <= j < text.len() && glyph_paints(text[j], x0 + 5 * j, y0, px, py)
}

/// Extending the text by one character paints the union of the shorter text
/// and the new glyph.
proof fn lemma_text_paints_extend(text: Seq<char>, i: int, x0: int, y0: int, px: int, py: int)
    requires
        0 <= i < text.len(),
    ensures
        text_paints(text.subrange(0, i + 1), x0, y0, px, py) <==> (text_paints(
            text.subrange(0, i),
            x0,
            y0,
            px,
            py,
        ) || glyph_paints(text[i], x0 + 5 * i, y0, px, py)),
{
    let s1 = text.subrange(0, i + 1);
    let s0 = text.subrange(0, i);
    if text_paints(s1, x0, y0, px, py) {
        let j = choose|j: int| 0 <= j < s1.len() && glyph_paints(s1[j], x0 + 5 * j, y0, px, py);
        if j < i {
            assert(s0[j] == s1[j]);
            assert(glyph_paints(s0[j], x0 + 5 * j, y0, px, py));
        } else {
            assert(s1[i] == text[i]);
        }
    }
    if text_paints(s0, x0, y0, px, py) {
        let j = choose|j: int| 0 <= j < s0.len() && glyph_paints(s0[j], x0 + 5 * j, y0, px, py);
        assert(s1[j] == s0[j]);
        assert(glyph_paints(s1[j], x0 + 5 * j, y0, px, py));
    }
    if glyph_paints(text[i], x0 + 5 * i, y0, px, py) {
        assert(glyph_paints(s1[i], x0 + 5 * i, y0, px, py));
    }
}

/// The pixel surface: a one-bit-per-pixel frame buffer in row-major order,
/// eight pixels to a byte with the leftmost pixel in the highest bit,
/// together with the drawing primitives that compose each band before it is
/// pushed to the panel. Drawing clips silently at the surface edge: the
/// out-of-bounds part of a shape is a no-op, not an error.
pub struct PixelSurface {
    pub geom: PanelGeometry,
    pub buf: Vec<u8>,
}

impl PixelSurface {
    /// The buffer matches the panel geometry.
    pub open spec fn wf(self) -> bool {
        &&& self.geom.wf()
        &&& self.buf@.len() == self.geom.buffer_len()
    }

    /// Pixel `(px, py)`: `true` is the set (drawn) level.
    pub open spec fn pixel(self, px: int, py: int) -> bool
        recommends
            self.wf(),
            0 <= px < self.geom.width,
            0 <= py < self.geom.height,
    {
        bit_set(self.buf@[py * self.geom.row_bytes() + px / 8], (7 - px % 8) as u8)
    }

    /// Every pixel of the surface is clear.
    pub open spec fn all_clear(self) -> bool {
        forall|px: int, py: int|
            0 <= px < self.geom.width && 0 <= py < self.geom.height ==> !self.pixel(px, py)
    }

    /// A cleared surface for the given panel, allocated once at startup.
    pub fn new(geom: PanelGeometry) -> (s: PixelSurface)
        requires
            geom.wf(),
        ensures
            s.wf(),
            s.geom == geom,
            s.all_clear(),
    {
        let rb: usize = (geom.width / 8) as usize;
        let h: usize = geom.height as usize;
        proof {
            assert(rb * h == geom.buffer_len() && rb * h <= 0x2000_0000) by (nonlinear_arith)
                requires
                    rb == geom.width as int / 8,
                    h == geom.height as int,
                    geom.width <= 0xFFFF,
                    geom.height <= 0xFFFF,
            ;
        }
        let len: usize = rb * h;
        let mut buf: Vec<u8> = Vec::new();
        let mut i: usize = 0;
        while i < len
            invariant
                i <= len,
                buf@.len() == i,
                forall|k: int| 0 <= k < i ==> buf@[k] == 0u8,
            decreases len - i,
        {
            buf.push(0u8);
            i = i + 1;
        }
        let s = PixelSurface { geom, buf };
        proof {
            assert forall|px: int, py: int|
                0 <= px < s.geom.width && 0 <= py < s.geom.height implies !s.pixel(px, py) by {
                lemma_pixel_index_in_range(s.geom, px, py);
                lemma_zero_byte_clear((7 - px % 8) as u8);
            }
        }
        s
    }

    /// Set or clear one pixel; a position outside the surface is left alone.
    pub fn set_pixel(&mut self, x: u16, y: u16, on: bool)
        requires
            old(self).wf(),
        ensures
            final(self).wf(),
            final(self).geom == old(self).geom,
            forall|px: int, py: int|
                0 <= px < old(self).geom.width && 0 <= py < old(self).geom.height
                    ==> final(self).pixel(px, py) == if px == x && py == y {
                    on
                } else {
                    old(self).pixel(px, py)
                },
    {
        if x < self.geom.width && y < self.geom.height {
            proof {
                lemma_pixel_index_in_range(self.geom, x as int, y as int);
            }
            let rb: usize = (self.geom.width / 8) as usize;
            proof {
                assert(y as int * rb as int + x as int / 8 <= 0x2000_0000) by (nonlinear_arith)
                    requires
                        rb == self.geom.width as int / 8,
                        self.geom.width <= 0xFFFF,
                        y <= 0xFFFF,
                        x <= 0xFFFF,
                ;
            }
            let idx: usize = (y as usize) * rb + (x / 8) as usize;
            let bit: u8 = 7 - (x % 8) as u8;
            let b = self.buf[idx];
            let nb: u8 = if on {
                b | (1u8 << bit)
            } else {
                b & !(1u8 << bit)
            };
            self.buf[idx] = nb;
            proof {
                let g = self.geom;
                assert forall|px: int, py: int|
                    0 <= px < g.width && 0 <= py < g.height implies self.pixel(px, py) == if px
                    == x && py == y {
                    on
                } else {
                    old(self).pixel(px, py)
                } by {
                    lemma_pixel_index_in_range(g, px, py);
                    let qi = py * g.row_bytes() + px / 8;
                    if qi == idx {
                        lemma_cell_index_injective(
                            g.row_bytes(),
                            py,
                            px / 8,
                            y as int,
                            x as int / 8,
                        );
                        lemma_bit_update(b, bit, (7 - px % 8) as u8);
                        if px != x {
                            assert(px == 8 * (px / 8) + px % 8) by (nonlinear_arith);
                            assert(x as int == 8 * (x as int / 8) + x as int % 8)
                                by (nonlinear_arith);
                        }
                    }
                }
            }
        }
    }

    /// Draw a rectangle: stroke level on its one-pixel border, fill level
    /// inside, clipped silently to the surface.
    pub fn draw_rectangle(&mut self, r: Region, fill: bool, stroke: bool)
        requires
            old(self).wf(),
        ensures
            final(self).wf(),
            final(self).geom == old(self).geom,
            forall|px: int, py: int|
                0 <= px < old(self).geom.width && 0 <= py < old(self).geom.height
                    ==> final(self).pixel(px, py) == if r.contains(px, py) {
                    rect_value(r, fill, stroke, px, py)
                } else {
                    old(self).pixel(px, py)
                },
    {
        let ghost orig = *self;
        let mut dy: u16 = 0;
        while dy < r.height
            invariant
                self.wf(),
                self.geom == orig.geom,
                orig.wf(),
                dy <= r.height,
                forall|px: int, py: int|
                    0 <= px < self.geom.width && 0 <= py < self.geom.height ==> self.pixel(
                        px,
                        py,
                    ) == if r.contains(px, py) && py < r.y + dy {
                        rect_value(r, fill, stroke, px, py)
                    } else {
                        orig.pixel(px, py)
                    },
            decreases r.height - dy,
        {
            let mut dx: u16 = 0;
            while dx < r.width
                invariant
                    self.wf(),
                    self.geom == orig.geom,
                    orig.wf(),
                    dx <= r.width,
                    dy < r.height,
                    forall|px: int, py: int|
                        0 <= px < self.geom.width && 0 <= py < self.geom.height ==> self.pixel(
                            px,
                            py,
                        ) == if r.contains(px, py) && (py < r.y + dy || (py == r.y + dy && px < r.x
                            + dx)) {
                            rect_value(r, fill, stroke, px, py)
                        } else {
                            orig.pixel(px, py)
                        },
                decreases r.width - dx,
            {
                let ghost prev = *self;
                proof {
                    assert(prev.wf());
                    assert(prev.geom == orig.geom);
                    assert(forall|px: int, py: int|
                        0 <= px < prev.geom.width && 0 <= py < prev.geom.height ==> prev.pixel(
                            px,
                            py,
                        ) == if r.contains(px, py) && (py < r.y + dy || (py == r.y + dy && px < r.x
                            + dx)) {
                            rect_value(r, fill, stroke, px, py)
                        } else {
                            orig.pixel(px, py)
                        });
                }
                let px32: u32 = r.x as u32 + dx as u32;
                let py32: u32 = r.y as u32 + dy as u32;
                let border = dx == 0 || dx == r.width - 1 || dy == 0 || dy == r.height - 1;
                let level = if border {
                    stroke
                } else {
                    fill
                };
                if px32 < self.geom.width as u32 && py32 < self.geom.height as u32 {
                    self.set_pixel(px32 as u16, py32 as u16, level);
                }
                proof {
                    assert forall|px: int, py: int|
                        0 <= px < self.geom.width && 0 <= py < self.geom.height implies self.pixel(
                        px,
                        py,
                    ) == if r.contains(px, py) && (py < r.y + dy || (py == r.y + dy && px < r.x + dx
                        + 1)) {
                        rect_value(r, fill, stroke, px, py)
                    } else {
                        orig.pixel(px, py)
                    } by {
                        if px == r.x + dx && py == r.y + dy {
                            assert(r.contains(px, py));
                            assert(r.on_border(px, py) == (dx == 0 || dx == r.width - 1 || dy == 0
                                || dy == r.height - 1));
                            assert(self.pixel(px, py) == level);
                            assert(rect_value(r, fill, stroke, px, py) == level);
                        } else {
                            assert(self.pixel(px, py) == prev.pixel(px, py));
                        }
                    }
                }
                dx = dx + 1;
            }
            dy = dy + 1;
        }
    }

    /// Draw the glyph of one character, anchored at `(x, y)`: its set bits
    /// take the given level, every other pixel is untouched; clipped
    /// silently to the surface.
    pub fn draw_glyph(&mut self, x: u16, y: u16, c: char, on: bool)
        requires
            old(self).wf(),
        ensures
            final(self).wf(),
            final(self).geom == old(self).geom,
            forall|px: int, py: int|
                0 <= px < old(self).geom.width && 0 <= py < old(self).geom.height
                    ==> final(self).pixel(px, py) == if glyph_paints(c, x as int, y as int, px, py) {
                    on
                } else {
                    old(self).pixel(px, py)
                },
    {
        let ghost orig = *self;
        let g = glyph_bits_exec(c);
        let mut row: u16 = 0;
        while row < 6
            invariant
                self.wf(),
                self.geom == orig.geom,
                row <= 6,
                g == glyph_bits(c),
                forall|px: int, py: int|
                    0 <= px < self.geom.width && 0 <= py < self.geom.height ==> self.pixel(px, py)
                        == if glyph_paints(c, x as int, y as int, px, py) && py < y + row {
                        on
                    } else {
                        orig.pixel(px, py)
                    },
            decreases 6 - row,
        {
            let mut col: u16 = 0;
            while col < 4
                invariant
                    self.wf(),
                    self.geom == orig.geom,
                    col <= 4,
                    row < 6,
                    g == glyph_bits(c),
                    forall|px: int, py: int|
                        0 <= px < self.geom.width && 0 <= py < self.geom.height ==> self.pixel(
                            px,
                            py,
                        ) == if glyph_paints(c, x as int, y as int, px, py) && (py < y + row || (py
                            == y + row && px < x + col)) {
                            on
                        } else {
                            orig.pixel(px, py)
                        },
                decreases 4 - col,
            {
                let sh: u32 = ((5 - row) * 4 + (3 - col)) as u32;
                if (g >> sh) & 1 == 1 {
                    let px32: u32 = x as u32 + col as u32;
                    let py32: u32 = y as u32 + row as u32;
                    if px32 < self.geom.width as u32 && py32 < self.geom.height as u32 {
                        self.set_pixel(px32 as u16, py32 as u16, on);
                    }
                }
                proof {
                    assert((((5 - row as int) * 4 + (3 - col as int)) as u32) == sh);
                    assert forall|px: int, py: int|
                        0 <= px < self.geom.width && 0 <= py < self.geom.height implies self.pixel(
                        px,
                        py,
                    ) == if glyph_paints(c, x as int, y as int, px, py) && (py < y + row || (py == y
                        + row && px < x + col + 1)) {
                        on
                    } else {
                        orig.pixel(px, py)
                    } by {
                        if px == x + col && py == y + row {
                            assert(glyph_paints(c, x as int, y as int, px, py) == glyph_bit(
                                c,
                                col as int,
                                row as int,
                            ));
                        }
                    }
                }
                col = col + 1;
            }
            row = row + 1;
        }
    }

    /// Draw `text` with its top-left corner at `(x, y)`: the set bits of
    /// each glyph take the given level, glyph cells advance five pixels to
    /// the right per character, everything else is untouched; clipped
    /// silently to the surface.
    pub fn draw_text(&mut self, x: u16, y: u16, text: &str, on: bool)
        requires
            old(self).wf(),
        ensures
            final(self).wf(),
            final(self).geom == old(self).geom,
            forall|px: int, py: int|
                0 <= px < old(self).geom.width && 0 <= py < old(self).geom.height
                    ==> final(self).pixel(px, py) == if text_paints(
                    text@,
                    x as int,
                    y as int,
                    px,
                    py,
                ) {
                    on
                } else {
                    old(self).pixel(px, py)
                },
    {
        let ghost orig = *self;
        let n = text.unicode_len();
        let mut i: usize = 0;
        while i < n
            invariant
                self.wf(),
                self.geom == orig.geom,
                i <= n,
                n == text@.len(),
                forall|px: int, py: int|
                    0 <= px < self.geom.width && 0 <= py < self.geom.height ==> self.pixel(px, py)
                        == if text_paints(
                        text@.subrange(0, i as int),
                        x as int,
                        y as int,
                        px,
                        py,
                    ) {
                        on
                    } else {
                        orig.pixel(px, py)
                    },
            decreases n - i,
        {
            let c = text.get_char(i);
            let gx: u128 = x as u128 + 5u128 * (i as u128);
            if gx < self.geom.width as u128 {
                self.draw_glyph(gx as u16, y, c, on);
            }
            proof {
                assert forall|px: int, py: int|
                    0 <= px < self.geom.width && 0 <= py < self.geom.height implies self.pixel(
                    px,
                    py,
                ) == if text_paints(
                    text@.subrange(0, i as int + 1),
                    x as int,
                    y as int,
                    px,
                    py,
                ) {
                    on
                } else {
                    orig.pixel(px, py)
                } by {
                    lemma_text_paints_extend(text@, i as int, x as int, y as int, px, py);
                }
            }
            i = i + 1;
        }
        proof {
            assert(text@.subrange(0, n as int) =~= text@);
        }
    }
}

/// Bytes of one stored row covered by the byte-aligned span of `r`.
pub open spec fn row_slice(g: PanelGeometry, buf: Seq<u8>, r: Region, py: int) -> Seq<u8> {
    buf.subrange(py * g.row_bytes() + r.byte_start(), py * g.row_bytes() + r.byte_end())
}

/// Bytes of the first `k` rows of `r`, top row first.
pub open spec fn region_rows(g: PanelGeometry, buf: Seq<u8>, r: Region, k: int) -> Seq<u8>
    decreases k,
{
    if k <= 0 {
        Seq::empty()
    } else {
        region_rows(g, buf, r, k - 1) + row_slice(g, buf, r, r.y + k - 1)
    }
}

/// The frame-buffer bytes a partial update of `r` pushes: the rows of the
/// region top to bottom, each from the byte holding its left edge to the
/// byte holding its right edge.
pub open spec fn region_data(g: PanelGeometry, buf: Seq<u8>, r: Region) -> Seq<u8> {
    region_rows(g, buf, r, r.height as int)
}

/// The byte-aligned span of an in-bounds region lies inside a stored row.
proof fn lemma_byte_span(g: PanelGeometry, r: Region)
    requires
        g.wf(),
        r.in_bounds(g),
    ensures
        0 <= r.byte_start() <= r.byte_end() <= g.row_bytes(),
{
    lemma_div_is_ordered(r.x as int, r.x as int + r.width as int + 7, 8);
    lemma_div_is_ordered(r.x as int + r.width as int + 7, g.width as int + 7, 8);
    lemma_fundamental_div_mod(g.width as int, 8);
    lemma_fundamental_div_mod_converse(g.width as int + 7, 8, g.width as int / 8, 7);
}

impl PixelSurface {
    /// The bytes of the frame buffer covered by `r`, in the order a partial
    /// update pushes them.
    pub fn region_bytes(&self, r: Region) -> (out: Vec<u8>)
        requires
            self.wf(),
            r.in_bounds(self.geom),
        ensures
            out@ == region_data(self.geom, self.buf@, r),
    {
        proof {
            lemma_byte_span(self.geom, r);
        }
        let rb: usize = (self.geom.width / 8) as usize;
        let bs: usize = (r.x / 8) as usize;
        let be: usize = ((r.x as u32 + r.width as u32 + 7) / 8) as usize;
        let total: usize = self.buf.len();
        let mut out: Vec<u8> = Vec::new();
        let mut k: u16 = 0;
        while k < r.height
            invariant
                self.wf(),
                r.in_bounds(self.geom),
                total == self.buf@.len(),
                k <= r.height,
                rb == self.geom.row_bytes(),
                bs == r.byte_start(),
                be == r.byte_end(),
                bs <= be <= rb,
                out@ == region_rows(self.geom, self.buf@, r, k as int),
            decreases r.height - k,
        {
            let py: usize = r.y as usize + k as usize;
            proof {
                assert(py * rb + rb <= self.buf@.len()) by (nonlinear_arith)
                    requires
                        0 <= py < self.geom.height as int,
                        rb == self.geom.row_bytes(),
                        rb >= 0,
                        self.buf@.len() == self.geom.row_bytes() * self.geom.height as int,
                ;
            }
            let base: usize = py * rb;
            let mut j: usize = bs;
            while j < be
                invariant
                    self.wf(),
                    bs <= j <= be,
                    be <= rb,
                    base == py * rb,
                    total == self.buf@.len(),
                    py == r.y + k,
                    k < r.height,
                    rb == self.geom.row_bytes(),
                    bs == r.byte_start(),
                    be == r.byte_end(),
                    base + rb <= self.buf@.len(),
                    out@ == region_rows(self.geom, self.buf@, r, k as int) + self.buf@.subrange(
                        base as int + bs as int,
                        base as int + j as int,
                    ),
                decreases be - j,
            {
                out.push(self.buf[base + j]);
                proof {
                    assert(self.buf@.subrange(base as int + bs as int, base as int + j as int).push(
                        self.buf@[base as int + j as int],
                    ) =~= self.buf@.subrange(base as int + bs as int, base as int + j as int + 1));
                }
                j = j + 1;
            }
            proof {
                assert(region_rows(self.geom, self.buf@, r, k as int + 1) == region_rows(
                    self.geom,
                    self.buf@,
                    r,
                    k as int,
                ) + row_slice(self.geom, self.buf@, r, r.y + k as int));
                assert(row_slice(self.geom, self.buf@, r, r.y + k as int) == self.buf@.subrange(
                    base as int + bs as int,
                    base as int + be as int,
                ));
            }
            k = k + 1;
        }
        out
    }
}

} // verus!
