use epd_band::bus::{MockAction, MockBus};
use epd_band::controller::{ControllerState, DisplayController, DisplayError, LutSelection};
use epd_band::geometry::{PanelGeometry, Region};
use epd_band::surface::PixelSurface;

fn panel() -> PanelGeometry {
    PanelGeometry { width: 296, height: 128 }
}

fn transfer_payloads(actions: &[MockAction]) -> Vec<Vec<u8>> {
    let mut out = Vec::new();
    for a in actions {
        if let MockAction::Transfer(d) = a {
            out.push(d.clone());
        }
    }
    out
}

fn busy_read_count(actions: &[MockAction]) -> usize {
    let mut n = 0;
    for a in actions {
        if matches!(a, MockAction::ReadBusy(_)) {
            n += 1;
        }
    }
    n
}

#[test]
fn reset_ends_ready_and_polls_busy_n_plus_one_times() {
    let mut bus = MockBus::new();
    bus.arm_busy(5);
    let mut ctrl = DisplayController::new(bus, panel());
    assert_eq!(ctrl.state, ControllerState::Uninitialized);
    ctrl.reset();
    assert_eq!(ctrl.state, ControllerState::Ready);
    // five busy answers, then the idle one
    assert_eq!(busy_read_count(&ctrl.bus.actions), 6);
}

#[test]
fn reset_with_idle_busy_line_reads_once() {
    let bus = MockBus::new();
    let mut ctrl = DisplayController::new(bus, panel());
    ctrl.reset();
    assert_eq!(ctrl.state, ControllerState::Ready);
    assert_eq!(busy_read_count(&ctrl.bus.actions), 1);
}

#[test]
fn setup_before_reset_fails_without_bus_traffic() {
    let bus = MockBus::new();
    let mut ctrl = DisplayController::new(bus, panel());
    let r = ctrl.setup(LutSelection::Internal);
    assert_eq!(r, Err(DisplayError::ProtocolError));
    assert_eq!(ctrl.bus.actions.len(), 0);
    assert_eq!(ctrl.state, ControllerState::Uninitialized);
}

#[test]
fn setup_after_reset_succeeds() {
    let bus = MockBus::new();
    let mut ctrl = DisplayController::new(bus, panel());
    ctrl.reset();
    let before = transfer_payloads(&ctrl.bus.actions).len();
    let r = ctrl.setup(LutSelection::Internal);
    assert_eq!(r, Ok(()));
    assert_eq!(ctrl.state, ControllerState::Ready);
    let payloads = transfer_payloads(&ctrl.bus.actions);
    assert!(payloads.len() > before);
    // power command, then its parameters
    assert_eq!(payloads[before], vec![0x01]);
    assert_eq!(payloads[before + 1], vec![0x03, 0x00, 0x2B, 0x2B]);
    // resolution parameters of the 296 x 128 panel: 296 = 0x0128
    assert_eq!(payloads[before + 5], vec![0x01, 0x28, 0x00, 0x80]);
}

#[test]
fn partial_update_out_of_bounds_is_rejected_with_zero_transfers() {
    let bus = MockBus::new();
    let mut ctrl = DisplayController::new(bus, panel());
    ctrl.reset();
    let surface = PixelSurface::new(panel());
    let n_before = ctrl.bus.actions.len();
    // one row below the bottom edge
    let r = ctrl.partial_update(&surface, Region { x: 0, y: 121, width: 296, height: 8 });
    assert_eq!(r, Err(DisplayError::InvalidRegion));
    assert_eq!(ctrl.bus.actions.len(), n_before);
    // fully outside
    let r = ctrl.partial_update(&surface, Region { x: 300, y: 0, width: 8, height: 8 });
    assert_eq!(r, Err(DisplayError::InvalidRegion));
    // too wide
    let r = ctrl.partial_update(&surface, Region { x: 8, y: 0, width: 296, height: 8 });
    assert_eq!(r, Err(DisplayError::InvalidRegion));
    assert_eq!(ctrl.bus.actions.len(), n_before);
}

#[test]
fn partial_update_in_bounds_succeeds() {
    let bus = MockBus::new();
    let mut ctrl = DisplayController::new(bus, panel());
    ctrl.reset();
    let surface = PixelSurface::new(panel());
    let n_before = transfer_payloads(&ctrl.bus.actions).len();
    let r = ctrl.partial_update(&surface, Region { x: 0, y: 0, width: 296, height: 8 });
    assert_eq!(r, Ok(()));
    assert_eq!(ctrl.state, ControllerState::Ready);
    assert!(transfer_payloads(&ctrl.bus.actions).len() > n_before);
}

#[test]
fn partial_update_before_reset_fails() {
    let bus = MockBus::new();
    let mut ctrl = DisplayController::new(bus, panel());
    let surface = PixelSurface::new(panel());
    let r = ctrl.partial_update(&surface, Region { x: 0, y: 0, width: 296, height: 8 });
    assert_eq!(r, Err(DisplayError::ProtocolError));
    assert_eq!(ctrl.bus.actions.len(), 0);
}

#[test]
fn partial_update_window_encoding_is_exact() {
    let bus = MockBus::new();
    let mut ctrl = DisplayController::new(bus, panel());
    ctrl.reset();
    let surface = PixelSurface::new(panel());
    let n_before = transfer_payloads(&ctrl.bus.actions).len();
    let r = ctrl.partial_update(&surface, Region { x: 8, y: 16, width: 16, height: 8 });
    assert_eq!(r, Ok(()));
    let payloads = transfer_payloads(&ctrl.bus.actions);
    // partial in, partial window, window parameters
    assert_eq!(payloads[n_before], vec![0x91]);
    assert_eq!(payloads[n_before + 1], vec![0x90]);
    assert_eq!(payloads[n_before + 2], vec![0, 8, 0, 16, 0, 16, 0, 8]);
    // data command, then two bytes per row over eight rows
    assert_eq!(payloads[n_before + 3], vec![0x13]);
    assert_eq!(payloads[n_before + 4].len(), 16);
}

#[test]
fn partial_update_twice_transfers_identical_bytes() {
    let bus = MockBus::new();
    let mut ctrl = DisplayController::new(bus, panel());
    ctrl.reset();
    let mut surface = PixelSurface::new(panel());
    surface.draw_rectangle(Region { x: 0, y: 0, width: 296, height: 8 }, true, false);
    surface.draw_text(147, 2, "7", false);
    let band = Region { x: 0, y: 0, width: 296, height: 8 };

    let n0 = ctrl.bus.actions.len();
    assert_eq!(ctrl.partial_update(&surface, band), Ok(()));
    let n1 = ctrl.bus.actions.len();
    assert_eq!(ctrl.partial_update(&surface, band), Ok(()));
    let n2 = ctrl.bus.actions.len();

    let first = transfer_payloads(&ctrl.bus.actions[n0..n1]);
    let second = transfer_payloads(&ctrl.bus.actions[n1..n2]);
    assert_eq!(first, second);
    assert!(!first.is_empty());
}

#[test]
fn full_update_pushes_whole_buffer() {
    let bus = MockBus::new();
    let mut ctrl = DisplayController::new(bus, panel());
    ctrl.reset();
    let mut surface = PixelSurface::new(panel());
    surface.set_pixel(0, 0, true);
    let n_before = transfer_payloads(&ctrl.bus.actions).len();
    let r = ctrl.full_update(&surface);
    assert_eq!(r, Ok(()));
    assert_eq!(ctrl.state, ControllerState::Ready);
    let payloads = transfer_payloads(&ctrl.bus.actions);
    assert_eq!(payloads[n_before], vec![0x13]);
    assert_eq!(payloads[n_before + 1].len(), 296 / 8 * 128);
    assert_eq!(payloads[n_before + 1][0], 0x80);
    assert_eq!(payloads[n_before + 2], vec![0x12]);
}

#[test]
fn full_update_before_reset_fails() {
    let bus = MockBus::new();
    let mut ctrl = DisplayController::new(bus, panel());
    let surface = PixelSurface::new(panel());
    let r = ctrl.full_update(&surface);
    assert_eq!(r, Err(DisplayError::ProtocolError));
    assert_eq!(ctrl.bus.actions.len(), 0);
}

#[test]
fn transfer_failure_is_surfaced_as_bus_error() {
    let bus = MockBus::new();
    let mut ctrl = DisplayController::new(bus, panel());
    ctrl.reset();
    let surface = PixelSurface::new(panel());
    ctrl.bus.refuse_transfers();
    let r = ctrl.full_update(&surface);
    assert!(matches!(r, Err(DisplayError::Bus(_))));
    let r = ctrl.partial_update(&surface, Region { x: 0, y: 0, width: 296, height: 8 });
    assert!(matches!(r, Err(DisplayError::Bus(_))));
}

#[test]
fn is_busy_reports_the_line_without_blocking() {
    let mut bus = MockBus::new();
    bus.arm_busy(1);
    let mut ctrl = DisplayController::new(bus, panel());
    assert!(ctrl.is_busy());
    assert!(!ctrl.is_busy());
    assert_eq!(busy_read_count(&ctrl.bus.actions), 2);
}
