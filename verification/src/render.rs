use crate::bus::BusPort;
use crate::controller::{
    appends_wait_core_wait, log_extends, partial_events, DisplayController, DisplayError,
};
use crate::geometry::{PanelGeometry, Region};
use crate::surface::{rect_value, text_paints, PixelSurface};
use vstd::arithmetic::div_mod::{
    lemma_fundamental_div_mod, lemma_fundamental_div_mod_converse, lemma_small_mod,
};
use vstd::prelude::*;

verus! {

/// Height of the refreshed band, and the vertical step per tick.
pub const BAND_HEIGHT: u16 = 8;

/// Rows between the top of the band and the top of its label glyphs.
pub const TEXT_Y_OFFSET: u16 = 2;

/// Decimal digit as a character.
pub open spec fn digit_char(d: int) -> char
    recommends
        0 <= d <= 9,
{
    if d == 0 {
        '0'
    } else if d == 1 {
        '1'
    } else if d == 2 {
        '2'
    } else if d == 3 {
        '3'
    } else if d == 4 {
        '4'
    } else if d == 5 {
        '5'
    } else if d == 6 {
        '6'
    } else if d == 7 {
        '7'
    } else if d == 8 {
        '8'
    } else {
        '9'
    }
}

/// The decimal label of a channel.
pub open spec fn channel_label(v: int) -> Seq<char>
    recommends
        0 <= v < 16,
{
    if v < 10 {
        seq![digit_char(v)]
    } else {
        seq!['1', digit_char(v - 10)]
    }
}

/// The decimal text of channel `value`, reduced into the channel range.
pub fn value_text(value: i32) -> (r: &'static str)
    requires
        0 <= value,
    ensures
        r@ == channel_label(value as int % 16),
{
    let idx = value % 16;
    match idx {
        0 => {
            proof {
                reveal_strlit("0");
                assert("0"@ =~= channel_label(0));
            }
            "0"
        },
        1 => {
            proof {
                reveal_strlit("1");
                assert("1"@ =~= channel_label(1));
            }
            "1"
        },
        2 => {
            proof {
                reveal_strlit("2");
                assert("2"@ =~= channel_label(2));
            }
            "2"
        },
        3 => {
            proof {
                reveal_strlit("3");
                assert("3"@ =~= channel_label(3));
            }
            "3"
        },
        4 => {
            proof {
                reveal_strlit("4");
                assert("4"@ =~= channel_label(4));
            }
            "4"
        },
        5 => {
            proof {
                reveal_strlit("5");
                assert("5"@ =~= channel_label(5));
            }
            "5"
        },
        6 => {
            proof {
                reveal_strlit("6");
                assert("6"@ =~= channel_label(6));
            }
            "6"
        },
        7 => {
            proof {
                reveal_strlit("7");
                assert("7"@ =~= channel_label(7));
            }
            "7"
        },
        8 => {
            proof {
                reveal_strlit("8");
                assert("8"@ =~= channel_label(8));
            }
            "8"
        },
        9 => {
            proof {
                reveal_strlit("9");
                assert("9"@ =~= channel_label(9));
            }
            "9"
        },
        10 => {
            proof {
                reveal_strlit("10");
                assert("10"@ =~= channel_label(10));
            }
            "10"
        },
        11 => {
            proof {
                reveal_strlit("11");
                assert("11"@ =~= channel_label(11));
            }
            "11"
        },
        12 => {
            proof {
                reveal_strlit("12");
                assert("12"@ =~= channel_label(12));
            }
            "12"
        },
        13 => {
            proof {
                reveal_strlit("13");
                assert("13"@ =~= channel_label(13));
            }
            "13"
        },
        14 => {
            proof {
                reveal_strlit("14");
                assert("14"@ =~= channel_label(14));
            }
            "14"
        },
        _ => {
            proof {
                reveal_strlit("15");
                assert("15"@ =~= channel_label(15));
            }
            "15"
        },
    }
}

/// A band-aligned row strictly below another leaves room for a whole band.
proof fn lemma_band_step(y: int, h: int)
    requires
        0 <= y < h,
        y % 8 == 0,
        h % 8 == 0,
    ensures
        y + 8 <= h,
        8 <= h,
{
    lemma_fundamental_div_mod(y, 8);
    lemma_fundamental_div_mod(h, 8);
    assert((h / 8 - y / 8) * 8 == h / 8 * 8 - y / 8 * 8) by (nonlinear_arith);
    assert(y / 8 < h / 8) by (nonlinear_arith)
        requires
            y == 8 * (y / 8),
            h == 8 * (h / 8),
            y < h,
    ;
}

/// Scheduling state of the render loop: the top row of the band refreshed
/// next tick, and the channel label drawn into it.
#[derive(Clone, Copy, Debug, PartialEq, Eq, Structural)]
pub struct RenderState {
    pub current_y: u16,
    pub channel_index: u8,
}

impl RenderState {
    /// The band top lies on a band boundary inside the panel, and the
    /// channel is in range.
    pub open spec fn wf(self, g: PanelGeometry) -> bool {
        &&& self.current_y < g.height
        &&& self.current_y % 8 == 0
        &&& self.channel_index < 16
    }

    /// The schedule at startup: top band, first channel.
    pub fn new() -> (s: RenderState)
        ensures
            s.current_y == 0,
            s.channel_index == 0,
    {
        RenderState { current_y: 0, channel_index: 0 }
    }

    /// The band refreshed this tick: the full panel width, one band height
    /// starting at the current row.
    pub open spec fn spec_band(self, g: PanelGeometry) -> Region {
        Region { x: 0, y: self.current_y, width: g.width, height: BAND_HEIGHT }
    }

    /// Executable twin of `spec_band`.
    pub fn band_region(&self, g: &PanelGeometry) -> (r: Region)
        ensures
            r == self.spec_band(*g),
    {
        Region { x: 0, y: self.current_y, width: g.width, height: BAND_HEIGHT }
    }

    /// Step to the next band and the next label, wrapping at the panel
    /// bottom and after the last channel.
    pub fn advance(&mut self, g: &PanelGeometry)
        requires
            g.wf(),
            old(self).wf(*g),
        ensures
            final(self).current_y == (old(self).current_y + BAND_HEIGHT) as int % g.height as int,
            final(self).channel_index == (old(self).channel_index + 1) as int % 16,
            final(self).wf(*g),
    {
        proof {
            lemma_band_step(self.current_y as int, g.height as int);
        }
        let ghost y = self.current_y as int;
        let ghost h = g.height as int;
        self.current_y = (self.current_y + BAND_HEIGHT) % g.height;
        self.channel_index = (self.channel_index + 1) % 16;
        proof {
            lemma_fundamental_div_mod(y, 8);
            if y + 8 == h {
                lemma_fundamental_div_mod_converse(y + 8, h, 1, 0);
            } else {
                lemma_small_mod((y + 8) as nat, h as nat);
                lemma_fundamental_div_mod_converse(y + 8, 8, y / 8 + 1, 0);
            }
        }
    }
}

/// What one tick leaves at pixel `(px, py)` of the surface: the label
/// glyphs are clear pixels, drawn over a band filled with set pixels inside
/// a clear one-pixel border; everything outside the band keeps its old
/// level.
pub open spec fn tick_pixel(
    s0: PixelSurface,
    rs: RenderState,
    g: PanelGeometry,
    px: int,
    py: int,
) -> bool {
    let band = rs.spec_band(g);
    let tx = (g.width - 1) as int / 2;
    let ty = rs.current_y + TEXT_Y_OFFSET;
    if text_paints(channel_label(rs.channel_index as int), tx, ty, px, py) {
        false
    } else if band.contains(px, py) {
        rect_value(band, true, false, px, py)
    } else {
        s0.pixel(px, py)
    }
}

/// One tick of the render loop: draw the highlighted band with its channel
/// label into the surface, push exactly that band to the panel, and advance
/// the schedule. The tick-interval sleep stays with the caller. A transport
/// failure aborts the tick: it is surfaced unchanged and the schedule does
/// not advance.
pub fn render_tick<B: BusPort>(
    ctrl: &mut DisplayController<B>,
    surface: &mut PixelSurface,
    rs: &mut RenderState,
) -> (r: Result<(), DisplayError>)
    requires
        old(ctrl).wf(),
        old(ctrl).state is Ready,
        old(surface).wf(),
        old(surface).geom == old(ctrl).geometry,
        old(rs).wf(old(ctrl).geometry),
    ensures
        final(ctrl).wf(),
        final(ctrl).geometry == old(ctrl).geometry,
        final(ctrl).state is Ready,
        final(surface).wf(),
        final(surface).geom == old(surface).geom,
        forall|px: int, py: int|
            0 <= px < old(surface).geom.width && 0 <= py < old(surface).geom.height
                ==> final(surface).pixel(px, py) == tick_pixel(
                *old(surface),
                *old(rs),
                old(ctrl).geometry,
                px,
                py,
            ),
        log_extends(old(ctrl).bus.log(), final(ctrl).bus.log()),
        r is Ok ==> appends_wait_core_wait(
            old(ctrl).bus.log(),
            final(ctrl).bus.log(),
            partial_events(
                old(ctrl).geometry,
                final(surface).buf@,
                old(rs).spec_band(old(ctrl).geometry),
            ),
        ),
        r is Ok ==> final(rs).current_y == (old(rs).current_y + BAND_HEIGHT) as int % old(
            ctrl,
        ).geometry.height as int && final(rs).channel_index == (old(rs).channel_index + 1) as int
            % 16 && final(rs).wf(old(ctrl).geometry),
        r is Err ==> (r matches Err(DisplayError::Bus(_))) && *final(rs) == *old(rs),
{
    proof {
        lemma_band_step(rs.current_y as int, ctrl.geometry.height as int);
    }
    let band = rs.band_region(&ctrl.geometry);
    surface.draw_rectangle(band, true, false);
    let label = value_text(rs.channel_index as i32);
    let tx = (ctrl.geometry.width - 1) / 2;
    let ty = rs.current_y + TEXT_Y_OFFSET;
    surface.draw_text(tx, ty, label, false);
    let r = ctrl.partial_update(surface, band);
    match r {
        Ok(()) => {},
        Err(e) => {
            return Err(e);
        },
    }
    rs.advance(&ctrl.geometry);
    Ok(())
}

/// `t` is a band-aligned row of a panel `h` rows tall.
pub open spec fn band_row(t: int, h: int) -> bool {
    0 <= t < h && t % 8 == 0
}

/// Band row after `k` ticks of a panel `h` rows tall, starting at `y0`.
pub open spec fn band_y_after(y0: int, k: nat, h: int) -> int
    decreases k,
{
    if k == 0 {
        y0
    } else {
        (band_y_after(y0, (k - 1) as nat, h) + 8) % h
    }
}

/// Channel index after `k` ticks, starting at `c0`.
pub open spec fn channel_after(c0: int, k: nat) -> int
    decreases k,
{
    if k == 0 {
        c0
    } else {
        (channel_after(c0, (k - 1) as nat) + 1) % 16
    }
}

proof fn lemma_band_y_closed(y0: int, k: nat, h: int)
    requires
        0 <= y0 < h,
        y0 % 8 == 0,
        h % 8 == 0,
        8 <= h,
    ensures
        band_y_after(y0, k, h) == (y0 + 8 * k) % h,
    decreases k,
{
    if k == 0 {
        lemma_small_mod(y0 as nat, h as nat);
    } else {
        lemma_band_y_closed(y0, (k - 1) as nat, h);
        let a = y0 + 8 * (k - 1);
        let prev = a % h;
        lemma_fundamental_div_mod(a, h);
        let q = a / h;
        if prev + 8 < h {
            lemma_fundamental_div_mod_converse(y0 + 8 * k, h, q, prev + 8);
            lemma_small_mod((prev + 8) as nat, h as nat);
        } else {
            assert((q + 1) * h == q * h + h) by (nonlinear_arith);
            lemma_fundamental_div_mod_converse(y0 + 8 * k, h, q + 1, prev + 8 - h);
            lemma_fundamental_div_mod_converse(prev + 8, h, 1, prev + 8 - h);
        }
    }
}

proof fn lemma_channel_closed(c0: int, k: nat)
    requires
        0 <= c0 < 16,
    ensures
        channel_after(c0, k) == (c0 + k) % 16,
    decreases k,
{
    if k == 0 {
        lemma_small_mod(c0 as nat, 16);
    } else {
        lemma_channel_closed(c0, (k - 1) as nat);
        let a = c0 + k - 1;
        let prev = a % 16;
        lemma_fundamental_div_mod(a, 16);
        let q = a / 16;
        if prev + 1 < 16 {
            lemma_fundamental_div_mod_converse(c0 + k, 16, q, prev + 1);
            lemma_small_mod((prev + 1) as nat, 16);
        } else {
            assert((q + 1) * 16 == q * 16 + 16) by (nonlinear_arith);
            lemma_fundamental_div_mod_converse(c0 + k, 16, q + 1, prev + 1 - 16);
            lemma_fundamental_div_mod_converse(prev + 1, 16, 1, prev + 1 - 16);
        }
    }
}

/// One full cycle of the render schedule: over `h / 8` ticks the band
/// visits every band-aligned row exactly once — no row twice, no row
/// missed — and after sixteen ticks the channel index is back at its
/// starting value; after the full cycle the band is back at its starting
/// row.
pub proof fn lemma_render_cycle(y0: int, c0: int, h: int)
    requires
        0 <= y0 < h,
        y0 % 8 == 0,
        h % 8 == 0,
        8 <= h,
        0 <= c0 < 16,
    ensures
        forall|i: nat, j: nat|
            i < j < h / 8 ==> band_y_after(y0, i, h) != band_y_after(y0, j, h),
        forall|t: int|
            #[trigger] band_row(t, h) ==> exists|i: nat|
                i < h / 8 && band_y_after(y0, i, h) == t,
        band_y_after(y0, (h / 8) as nat, h) == y0,
        channel_after(c0, 16) == c0,
{
    lemma_fundamental_div_mod(h, 8);
    assert forall|i: nat, j: nat|
        i < j < h / 8 implies band_y_after(y0, i, h) != band_y_after(y0, j, h) by {
        lemma_band_y_closed(y0, i, h);
        lemma_band_y_closed(y0, j, h);
        let a = y0 + 8 * i;
        let b = y0 + 8 * j;
        assert(8 * i <= 8 * (h / 8) - 8 && 8 * j <= 8 * (h / 8) - 8 && 8 * i < 8 * j)
            by (nonlinear_arith)
            requires
                0 <= i,
                i < j,
                j < h / 8,
        ;
        if a < h {
            lemma_small_mod(a as nat, h as nat);
        } else {
            lemma_fundamental_div_mod_converse(a, h, 1, a - h);
        }
        if b < h {
            lemma_small_mod(b as nat, h as nat);
        } else {
            lemma_fundamental_div_mod_converse(b, h, 1, b - h);
        }
    }
    assert forall|t: int| #[trigger] band_row(t, h) implies exists|i: nat|
        i < h / 8 && band_y_after(y0, i, h) == t by {
        lemma_fundamental_div_mod(t, 8);
        lemma_fundamental_div_mod(y0, 8);
        if t >= y0 {
            lemma_band_step(t, h);
            let i = (t - y0) / 8;
            lemma_fundamental_div_mod_converse(t - y0, 8, t / 8 - y0 / 8, 0);
            assert(8 * (t / 8 - y0 / 8) == 8 * (t / 8) - 8 * (y0 / 8)) by (nonlinear_arith);
            lemma_band_y_closed(y0, i as nat, h);
            lemma_small_mod(t as nat, h as nat);
            assert(8 * i <= 8 * (h / 8) - 8) by (nonlinear_arith)
                requires
                    8 * i == t - y0,
                    t <= h - 8,
                    y0 >= 0,
                    h == 8 * (h / 8),
            ;
            assert(i < h / 8) by (nonlinear_arith)
                requires
                    8 * i <= 8 * (h / 8) - 8,
            ;
            assert(band_y_after(y0, i as nat, h) == t);
        } else {
            lemma_band_step(t, y0);
            let i = (t + h - y0) / 8;
            lemma_fundamental_div_mod_converse(t + h - y0, 8, t / 8 + h / 8 - y0 / 8, 0);
            assert(8 * (t / 8 + h / 8 - y0 / 8) == 8 * (t / 8) + 8 * (h / 8) - 8 * (y0 / 8))
                by (nonlinear_arith);
            lemma_band_y_closed(y0, i as nat, h);
            lemma_fundamental_div_mod_converse(y0 + 8 * i, h, 1, t);
            assert(8 * i <= 8 * (h / 8) - 8) by (nonlinear_arith)
                requires
                    8 * i == t + h - y0,
                    t <= y0 - 8,
                    h == 8 * (h / 8),
            ;
            assert(i < h / 8) by (nonlinear_arith)
                requires
                    8 * i <= 8 * (h / 8) - 8,
            ;
            assert(band_y_after(y0, i as nat, h) == t);
        }
    }
    lemma_band_y_closed(y0, (h / 8) as nat, h);
    assert(8 * (h / 8) == h);
    lemma_fundamental_div_mod_converse(y0 + h, h, 1, y0);
    lemma_channel_closed(c0, 16);
    lemma_fundamental_div_mod_converse(c0 + 16, 16, 1, c0);
}

} // verus!
