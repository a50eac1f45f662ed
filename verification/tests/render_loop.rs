use epd_band::bus::MockBus;
use epd_band::controller::{ControllerState, DisplayController};
use epd_band::geometry::{PanelGeometry, Region};
use epd_band::render::{render_tick, value_text, RenderState};
use epd_band::surface::PixelSurface;

fn panel() -> PanelGeometry {
    PanelGeometry { width: 296, height: 128 }
}

// Row-major, eight pixels per byte, leftmost pixel in the highest bit.
fn pixel_of(s: &PixelSurface, x: usize, y: usize) -> bool {
    let rb = s.geom.width as usize / 8;
    s.buf[y * rb + x / 8] & (0x80 >> (x % 8)) != 0
}

#[test]
fn value_text_gives_decimal_labels() {
    let expected = [
        "0", "1", "2", "3", "4", "5", "6", "7", "8", "9", "10", "11", "12", "13", "14", "15",
    ];
    for (i, want) in expected.iter().enumerate() {
        assert_eq!(value_text(i as i32), *want);
    }
    assert_eq!(value_text(16), "0");
    assert_eq!(value_text(31), "15");
}

#[test]
fn new_surface_is_clear() {
    let s = PixelSurface::new(panel());
    assert_eq!(s.buf.len(), 296 / 8 * 128);
    assert!(s.buf.iter().all(|b| *b == 0));
}

#[test]
fn set_pixel_sets_one_bit_and_clips() {
    let mut s = PixelSurface::new(panel());
    s.set_pixel(0, 0, true);
    assert_eq!(s.buf[0], 0x80);
    s.set_pixel(9, 1, true);
    assert_eq!(s.buf[37 + 1], 0x40);
    s.set_pixel(9, 1, false);
    assert_eq!(s.buf[37 + 1], 0x00);
    // outside the surface: a silent no-op
    let before = s.buf.clone();
    s.set_pixel(296, 0, true);
    s.set_pixel(0, 128, true);
    assert_eq!(s.buf, before);
}

#[test]
fn draw_rectangle_strokes_border_and_fills_interior() {
    let mut s = PixelSurface::new(PanelGeometry { width: 16, height: 8 });
    s.draw_rectangle(Region { x: 0, y: 0, width: 8, height: 4 }, true, false);
    assert_eq!(
        s.buf,
        vec![
            0x00, 0x00, // top border row
            0x7E, 0x00, // interior with one-pixel border each side
            0x7E, 0x00,
            0x00, 0x00, // bottom border row
            0x00, 0x00, 0x00, 0x00, 0x00, 0x00, 0x00, 0x00,
        ]
    );
}

#[test]
fn draw_glyph_renders_the_digit_pattern() {
    let mut s = PixelSurface::new(PanelGeometry { width: 8, height: 8 });
    s.draw_glyph(0, 0, '1', true);
    assert_eq!(s.buf, vec![0x40, 0xC0, 0x40, 0x40, 0xE0, 0x00, 0x00, 0x00]);
}

#[test]
fn draw_text_advances_five_pixels_per_character() {
    let mut s = PixelSurface::new(PanelGeometry { width: 16, height: 8 });
    s.draw_text(0, 0, "11", true);
    // second glyph starts at column five
    assert_eq!(s.buf, vec![
        0x42, 0x00, 0xC6, 0x00, 0x42, 0x00, 0x42, 0x00, 0xE7, 0x00, 0x00, 0x00, 0x00, 0x00,
        0x00, 0x00,
    ]);
}

#[test]
fn unknown_character_paints_nothing() {
    let mut s = PixelSurface::new(PanelGeometry { width: 8, height: 8 });
    s.draw_text(0, 0, "x", true);
    assert!(s.buf.iter().all(|b| *b == 0));
}

#[test]
fn region_bytes_extracts_the_covered_bytes() {
    let mut s = PixelSurface::new(PanelGeometry { width: 16, height: 8 });
    s.set_pixel(8, 0, true);
    s.set_pixel(15, 1, true);
    let bytes = s.region_bytes(Region { x: 8, y: 0, width: 8, height: 2 });
    assert_eq!(bytes, vec![0x80, 0x01]);
    // an unaligned region widens to whole bytes
    let bytes = s.region_bytes(Region { x: 6, y: 0, width: 4, height: 1 });
    assert_eq!(bytes, vec![0x00, 0x80]);
}

#[test]
fn render_cycle_visits_every_band_once_and_wraps_labels() {
    let bus = MockBus::new();
    let mut ctrl = DisplayController::new(bus, panel());
    ctrl.reset();
    let mut surface = PixelSurface::new(panel());
    let mut rs = RenderState::new();

    let mut ys = Vec::new();
    let mut labels = Vec::new();
    for _ in 0..16 {
        ys.push(rs.current_y);
        labels.push(value_text(rs.channel_index as i32));
        assert_eq!(render_tick(&mut ctrl, &mut surface, &mut rs), Ok(()));
        assert_eq!(ctrl.state, ControllerState::Ready);
    }
    // every band position exactly once, in order, over one full cycle
    let want_ys: Vec<u16> = (0..16).map(|k| 8 * k).collect();
    assert_eq!(ys, want_ys);
    let want_labels = vec![
        "0", "1", "2", "3", "4", "5", "6", "7", "8", "9", "10", "11", "12", "13", "14", "15",
    ];
    assert_eq!(labels, want_labels);
    // after sixteen ticks both counters are back at their start
    assert_eq!(rs.current_y, 0);
    assert_eq!(rs.channel_index, 0);
    // the next tick repeats the first label
    assert_eq!(value_text(rs.channel_index as i32), "0");
}

#[test]
fn render_tick_draws_the_band_and_label() {
    let bus = MockBus::new();
    let mut ctrl = DisplayController::new(bus, panel());
    ctrl.reset();
    let mut surface = PixelSurface::new(panel());
    let mut rs = RenderState::new();
    assert_eq!(render_tick(&mut ctrl, &mut surface, &mut rs), Ok(()));

    // band interior is set, band border is clear, below the band untouched
    assert!(pixel_of(&surface, 1, 1));
    assert!(!pixel_of(&surface, 0, 0));
    assert!(!pixel_of(&surface, 295, 7));
    assert!(!pixel_of(&surface, 1, 8));
    // the label "0" is drawn in clear pixels at the band centre, two rows down
    assert!(!pixel_of(&surface, 147, 2));
    // schedule advanced
    assert_eq!(rs.current_y, 8);
    assert_eq!(rs.channel_index, 1);
}
