use crate::bus::{
    all_busy_reads, is_busy_wait, lemma_busy_wait_all_reads, wait_while_busy, BusError, BusEvent,
    BusPort, Line,
};
use crate::geometry::{PanelGeometry, Region};
use crate::surface::{region_data, PixelSurface};
use vstd::prelude::*;

verus! {

/// Life cycle of the controller. Transitions are driven only by the display
/// controller itself; `Resetting` and `Busy` are held during the blocking
/// phases of `reset` and the refresh operations.
#[derive(Clone, Copy, Debug, PartialEq, Eq, Structural)]
pub enum ControllerState {
    Uninitialized,
    Resetting,
    Ready,
    Busy,
}

/// Waveform table choice, fixed at initialization: the fast internal table,
/// or the controller's standard one.
#[derive(Clone, Copy, Debug, PartialEq, Eq, Structural)]
pub enum LutSelection {
    Internal,
    Standard,
}

/// Errors of the controller. `ProtocolError` and `InvalidRegion` are local
/// precondition violations, rejected before any bus traffic; `Bus` carries a
/// transport failure through uninterpreted.
#[derive(Clone, Copy, Debug, PartialEq, Eq, Structural)]
pub enum DisplayError {
    ProtocolError,
    InvalidRegion,
    Bus(BusError),
}

pub const CMD_PANEL_SETTING: u8 = 0x00;

pub const CMD_POWER: u8 = 0x01;

pub const CMD_POWER_ON: u8 = 0x04;

pub const CMD_REFRESH: u8 = 0x12;

pub const CMD_DATA_FRAME: u8 = 0x13;

pub const CMD_RESOLUTION: u8 = 0x61;

pub const CMD_PARTIAL_WINDOW: u8 = 0x90;

pub const CMD_PARTIAL_IN: u8 = 0x91;

pub const CMD_PARTIAL_OUT: u8 = 0x92;

/// Settle time of each half of the reset pulse.
pub const RESET_SETTLE_US: u32 = 10;

/// Pacing delay inside the setup sequence.
pub const SETUP_PACING_MS: u32 = 10;

/// High byte of a sixteen-bit protocol parameter.
pub open spec fn hi_byte(v: u16) -> u8 {
    (v / 256) as u8
}

/// Low byte of a sixteen-bit protocol parameter.
pub open spec fn lo_byte(v: u16) -> u8 {
    (v % 256) as u8
}

/// Bus events of one command byte: command mode, then the byte.
pub open spec fn command_events(c: u8) -> Seq<BusEvent> {
    seq![
        BusEvent::SetLine(Line::DataCommand, false),
        BusEvent::Transfer(seq![c]),
    ]
}

/// Bus events of one data block: data mode, then the bytes.
pub open spec fn data_events(d: Seq<u8>) -> Seq<BusEvent> {
    seq![BusEvent::SetLine(Line::DataCommand, true), BusEvent::Transfer(d)]
}

/// The reset pulse: enable low, settle, enable high, settle. The busy poll
/// that completes a reset follows these events.
pub open spec fn reset_events() -> Seq<BusEvent> {
    seq![
        BusEvent::SetLine(Line::Enable, false),
        BusEvent::DelayUs(RESET_SETTLE_US),
        BusEvent::SetLine(Line::Enable, true),
        BusEvent::DelayUs(RESET_SETTLE_US),
    ]
}

/// Power-setting parameters of the setup sequence.
pub open spec fn power_bytes() -> Seq<u8> {
    seq![0x03u8, 0x00u8, 0x2Bu8, 0x2Bu8]
}

/// Panel-setting byte fixing the waveform table choice.
pub open spec fn psr_byte(lut: LutSelection) -> u8 {
    match lut {
        LutSelection::Internal => 0x1F,
        LutSelection::Standard => 0x0F,
    }
}

/// Resolution parameters: width then height, high byte first.
pub open spec fn resolution_bytes(g: PanelGeometry) -> Seq<u8> {
    seq![hi_byte(g.width), lo_byte(g.width), hi_byte(g.height), lo_byte(g.height)]
}

/// Partial-window parameters: origin then size, high byte first.
pub open spec fn window_bytes(r: Region) -> Seq<u8> {
    seq![
        hi_byte(r.x),
        lo_byte(r.x),
        hi_byte(r.y),
        lo_byte(r.y),
        hi_byte(r.width),
        lo_byte(r.width),
        hi_byte(r.height),
        lo_byte(r.height),
    ]
}

/// The initialization sequence: power settings, pacing, panel setting with
/// the waveform choice, panel resolution, power on, pacing.
pub open spec fn setup_events(g: PanelGeometry, lut: LutSelection) -> Seq<BusEvent> {
    command_events(CMD_POWER) + data_events(power_bytes())
        + seq![BusEvent::DelayMs(SETUP_PACING_MS)] + command_events(CMD_PANEL_SETTING)
        + data_events(seq![psr_byte(lut)]) + command_events(CMD_RESOLUTION) + data_events(
        resolution_bytes(g),
    ) + command_events(CMD_POWER_ON) + seq![BusEvent::DelayMs(SETUP_PACING_MS)]
}

/// The full-refresh sequence: the whole frame buffer, then the refresh
/// command.
pub open spec fn full_events(buf: Seq<u8>) -> Seq<BusEvent> {
    command_events(CMD_DATA_FRAME) + data_events(buf) + command_events(CMD_REFRESH)
}

/// The partial-refresh sequence: enter partial mode, the window parameters,
/// the bytes of the frame buffer covered by the window, refresh, leave
/// partial mode.
pub open spec fn partial_events(g: PanelGeometry, buf: Seq<u8>, r: Region) -> Seq<BusEvent> {
    command_events(CMD_PARTIAL_IN) + command_events(CMD_PARTIAL_WINDOW) + data_events(
        window_bytes(r),
    ) + command_events(CMD_DATA_FRAME) + data_events(region_data(g, buf, r)) + command_events(
        CMD_REFRESH,
    ) + command_events(CMD_PARTIAL_OUT)
}

/// `new` extends `old` by exactly `core` followed by one busy-to-idle poll.
pub open spec fn appends_core_then_wait(
    old: Seq<BusEvent>,
    new: Seq<BusEvent>,
    core: Seq<BusEvent>,
) -> bool {
    &&& old.len() + core.len() < new.len()
    &&& new.subrange(0, old.len() as int) == old
    &&& new.subrange(old.len() as int, (old.len() + core.len()) as int) == core
    &&& is_busy_wait(new.skip((old.len() + core.len()) as int))
}

/// `new` extends `old` by one busy-to-idle poll, then exactly `core`, then
/// one more busy-to-idle poll.
pub open spec fn appends_wait_core_wait(
    old: Seq<BusEvent>,
    new: Seq<BusEvent>,
    core: Seq<BusEvent>,
) -> bool {
    &&& new.subrange(0, old.len() as int) == old
    &&& exists|m: int|
        {
            &&& old.len() < m
            &&& m + core.len() < new.len()
            &&& is_busy_wait(#[trigger] new.subrange(old.len() as int, m))
            &&& new.subrange(m, m + core.len()) == core
            &&& is_busy_wait(new.skip(m + core.len()))
        }
}

/// `old` is unchanged at the front of `new`.
pub open spec fn log_extends(old: Seq<BusEvent>, new: Seq<BusEvent>) -> bool {
    &&& old.len() <= new.len()
    &&& new.subrange(0, old.len() as int) == old
}

/// A subrange within a preserved prefix is the same in both sequences.
proof fn lemma_subrange_of_extension(a: Seq<BusEvent>, b: Seq<BusEvent>, i: int, j: int)
    requires
        log_extends(a, b),
        0 <= i <= j <= a.len(),
    ensures
        b.subrange(i, j) == a.subrange(i, j),
{
    assert forall|k: int| 0 <= k < j - i implies b.subrange(i, j)[k] == a.subrange(i, j)[k] by {
        assert(a[i + k] == b.subrange(0, a.len() as int)[i + k]);
    }
    assert(b.subrange(i, j) =~= a.subrange(i, j));
}

/// A single byte as a transfer payload.
fn byte_vec(c: u8) -> (out: Vec<u8>)
    ensures
        out@ == seq![c],
{
    let mut out: Vec<u8> = Vec::new();
    out.push(c);
    proof {
        assert(out@ =~= seq![c]);
    }
    out
}

/// One command byte: command mode on the data/command line, then the byte.
fn send_command<B: BusPort>(bus: &mut B, c: u8) -> (r: Result<(), BusError>)
    ensures
        r is Ok ==> final(bus).log() == old(bus).log() + command_events(c),
        r is Err ==> final(bus).log() == old(bus).log().push(
            BusEvent::SetLine(Line::DataCommand, false),
        ),
{
    bus.set_line(Line::DataCommand, false);
    let payload = byte_vec(c);
    let r = bus.transfer(&payload);
    proof {
        if r is Ok {
            assert(bus.log() =~= old(bus).log() + command_events(c));
        }
    }
    r
}

/// One data block: data mode on the data/command line, then the bytes.
fn send_data<B: BusPort>(bus: &mut B, d: &Vec<u8>) -> (r: Result<(), BusError>)
    ensures
        r is Ok ==> final(bus).log() == old(bus).log() + data_events(d@),
        r is Err ==> final(bus).log() == old(bus).log().push(
            BusEvent::SetLine(Line::DataCommand, true),
        ),
{
    bus.set_line(Line::DataCommand, true);
    let r = bus.transfer(d);
    proof {
        if r is Ok {
            assert(bus.log() =~= old(bus).log() + data_events(d@));
        }
    }
    r
}

/// The display controller: it owns the bus port and the panel geometry,
/// tracks the protocol state, and executes the reset, setup and refresh
/// protocols while honouring the busy line before and after every refresh.
pub struct DisplayController<B: BusPort> {
    pub bus: B,
    pub state: ControllerState,
    pub geometry: PanelGeometry,
}

impl<B: BusPort> DisplayController<B> {
    /// The panel geometry is well formed.
    pub open spec fn wf(self) -> bool {
        self.geometry.wf()
    }

    /// A controller at power-on: nothing sent yet, not initialized.
    pub fn new(bus: B, geometry: PanelGeometry) -> (c: DisplayController<B>)
        requires
            geometry.wf(),
        ensures
            c.wf(),
            c.bus == bus,
            c.state is Uninitialized,
            c.geometry == geometry,
    {
        DisplayController { bus, state: ControllerState::Uninitialized, geometry }
    }

    /// Non-blocking sample of the busy line.
    pub fn is_busy(&mut self) -> (busy: bool)
        ensures
            final(self).state == old(self).state,
            final(self).geometry == old(self).geometry,
            final(self).bus.log() == old(self).bus.log().push(BusEvent::ReadBusy(busy)),
    {
        self.bus.read_busy()
    }

    /// Hardware reset: pulse the enable line low and back high with the
    /// settle time on each level, then poll the busy line until the panel
    /// reports idle. Ends in `Ready` from any prior state. While the busy
    /// line stays busy the poll blocks; a caller that needs bounded
    /// behaviour must bound it outside.
    pub fn reset(&mut self)
        ensures
            final(self).state is Ready,
            final(self).geometry == old(self).geometry,
            appends_core_then_wait(
                old(self).bus.log(),
                final(self).bus.log(),
                reset_events(),
            ),
    {
        let ghost l0 = self.bus.log();
        self.state = ControllerState::Resetting;
        self.bus.set_line(Line::Enable, false);
        self.bus.delay_us(RESET_SETTLE_US);
        self.bus.set_line(Line::Enable, true);
        self.bus.delay_us(RESET_SETTLE_US);
        proof {
            assert(self.bus.log() =~= l0 + reset_events());
        }
        let ghost l1 = self.bus.log();
        wait_while_busy(&mut self.bus);
        self.state = ControllerState::Ready;
        proof {
            let l2 = self.bus.log();
            assert(l2.subrange(0, l0.len() as int) =~= l0);
            assert(l2.subrange(l0.len() as int, l1.len() as int) =~= reset_events()) by {
                lemma_subrange_of_extension(l1, l2, l0.len() as int, l1.len() as int);
                assert(l1.subrange(l0.len() as int, l1.len() as int) =~= reset_events());
            }
        }
    }

    /// The initialization command sequence: power settings, waveform table
    /// choice, panel resolution, power on, with millisecond pacing. Allowed
    /// only in `Ready`; outside it the call fails with `ProtocolError` and
    /// puts nothing on the bus. A transport failure is surfaced as `Bus`
    /// after whatever prefix of the sequence was already sent.
    pub fn setup(&mut self, lut: LutSelection) -> (r: Result<(), DisplayError>)
        ensures
            final(self).geometry == old(self).geometry,
            final(self).state == old(self).state,
            old(self).state !is Ready ==> r == Err::<(), DisplayError>(
                DisplayError::ProtocolError,
            ) && final(self).bus.log() == old(self).bus.log(),
            old(self).state is Ready ==> {
                &&& log_extends(old(self).bus.log(), final(self).bus.log())
                &&& (r is Ok ==> final(self).bus.log() == old(self).bus.log() + setup_events(
                    old(self).geometry,
                    lut,
                ))
                &&& (r is Err ==> r matches Err(DisplayError::Bus(_)))
            },
    {
        match self.state {
            ControllerState::Ready => {},
            _ => {
                return Err(DisplayError::ProtocolError);
            },
        }
        let ghost l0 = self.bus.log();
        match send_command(&mut self.bus, CMD_POWER) {
            Ok(()) => {},
            Err(e) => {
                proof {
                    assert(self.bus.log().subrange(0, l0.len() as int) =~= l0);
                }
                return Err(DisplayError::Bus(e));
            },
        }
        let power = {
            let mut v: Vec<u8> = Vec::new();
            v.push(0x03);
            v.push(0x00);
            v.push(0x2B);
            v.push(0x2B);
            proof {
                assert(v@ =~= power_bytes());
            }
            v
        };
        match send_data(&mut self.bus, &power) {
            Ok(()) => {},
            Err(e) => {
                proof {
                    assert(self.bus.log().subrange(0, l0.len() as int) =~= l0);
                }
                return Err(DisplayError::Bus(e));
            },
        }
        self.bus.delay_ms(SETUP_PACING_MS);
        match send_command(&mut self.bus, CMD_PANEL_SETTING) {
            Ok(()) => {},
            Err(e) => {
                proof {
                    assert(self.bus.log().subrange(0, l0.len() as int) =~= l0);
                }
                return Err(DisplayError::Bus(e));
            },
        }
        let psr = byte_vec(
            match lut {
                LutSelection::Internal => 0x1F,
                LutSelection::Standard => 0x0F,
            },
        );
        match send_data(&mut self.bus, &psr) {
            Ok(()) => {},
            Err(e) => {
                proof {
                    assert(self.bus.log().subrange(0, l0.len() as int) =~= l0);
                }
                return Err(DisplayError::Bus(e));
            },
        }
        match send_command(&mut self.bus, CMD_RESOLUTION) {
            Ok(()) => {},
            Err(e) => {
                proof {
                    assert(self.bus.log().subrange(0, l0.len() as int) =~= l0);
                }
                return Err(DisplayError::Bus(e));
            },
        }
        let res = {
            let mut v: Vec<u8> = Vec::new();
            v.push((self.geometry.width / 256) as u8);
            v.push((self.geometry.width % 256) as u8);
            v.push((self.geometry.height / 256) as u8);
            v.push((self.geometry.height % 256) as u8);
            proof {
                assert(v@ =~= resolution_bytes(self.geometry));
            }
            v
        };
        match send_data(&mut self.bus, &res) {
            Ok(()) => {},
            Err(e) => {
                proof {
                    assert(self.bus.log().subrange(0, l0.len() as int) =~= l0);
                }
                return Err(DisplayError::Bus(e));
            },
        }
        match send_command(&mut self.bus, CMD_POWER_ON) {
            Ok(()) => {},
            Err(e) => {
                proof {
                    assert(self.bus.log().subrange(0, l0.len() as int) =~= l0);
                }
                return Err(DisplayError::Bus(e));
            },
        }
        self.bus.delay_ms(SETUP_PACING_MS);
        proof {
            assert(self.bus.log() =~= l0 + setup_events(self.geometry, lut));
            assert(self.bus.log().subrange(0, l0.len() as int) =~= l0);
        }
        Ok(())
    }
}

impl<B: BusPort> DisplayController<B> {
    /// Full refresh: wait for the busy line to clear, push the whole frame
    /// buffer, issue the refresh command, and hold `Busy` until the busy
    /// line clears again. Slow, clears residual ghosting; used once at
    /// startup before the render loop begins. Allowed only in `Ready`;
    /// outside it the call fails with `ProtocolError` and puts nothing on
    /// the bus. A transport failure is surfaced as `Bus` after whatever
    /// prefix of the sequence was already sent.
    pub fn full_update(&mut self, surface: &PixelSurface) -> (r: Result<(), DisplayError>)
        requires
            surface.wf(),
            surface.geom == old(self).geometry,
        ensures
            final(self).geometry == old(self).geometry,
            old(self).state !is Ready ==> r == Err::<(), DisplayError>(
                DisplayError::ProtocolError,
            ) && final(self).bus.log() == old(self).bus.log() && final(self).state == old(
                self,
            ).state,
            old(self).state is Ready ==> {
                &&& final(self).state is Ready
                &&& log_extends(old(self).bus.log(), final(self).bus.log())
                &&& (r is Ok ==> appends_wait_core_wait(
                    old(self).bus.log(),
                    final(self).bus.log(),
                    full_events(surface.buf@),
                ))
                &&& (r is Err ==> r matches Err(DisplayError::Bus(_)))
            },
    {
        match self.state {
            ControllerState::Ready => {},
            _ => {
                return Err(DisplayError::ProtocolError);
            },
        }
        let ghost l0 = self.bus.log();
        wait_while_busy(&mut self.bus);
        let ghost l1 = self.bus.log();
        match send_command(&mut self.bus, CMD_DATA_FRAME) {
            Ok(()) => {},
            Err(e) => {
                proof {
                    assert(self.bus.log().subrange(0, l0.len() as int) =~= l0);
                }
                return Err(DisplayError::Bus(e));
            },
        }
        match send_data(&mut self.bus, &surface.buf) {
            Ok(()) => {},
            Err(e) => {
                proof {
                    assert(self.bus.log().subrange(0, l0.len() as int) =~= l0);
                }
                return Err(DisplayError::Bus(e));
            },
        }
        match send_command(&mut self.bus, CMD_REFRESH) {
            Ok(()) => {},
            Err(e) => {
                proof {
                    assert(self.bus.log().subrange(0, l0.len() as int) =~= l0);
                }
                return Err(DisplayError::Bus(e));
            },
        }
        let ghost l2 = self.bus.log();
        self.state = ControllerState::Busy;
        wait_while_busy(&mut self.bus);
        self.state = ControllerState::Ready;
        proof {
            let l3 = self.bus.log();
            let core = full_events(surface.buf@);
            let m = l1.len() as int;
            assert(l2 =~= l1 + core);
            assert(l3.subrange(0, l0.len() as int) =~= l0);
            assert(l3.subrange(l0.len() as int, m) =~= l1.skip(l0.len() as int)) by {
                assert(log_extends(l1, l2)) by {
                    assert(l2.subrange(0, l1.len() as int) =~= l1);
                }
                lemma_subrange_of_extension(l2, l3, l0.len() as int, m);
                lemma_subrange_of_extension(l1, l2, l0.len() as int, m);
                assert(l1.subrange(l0.len() as int, m) =~= l1.skip(l0.len() as int));
            }
            assert(l3.subrange(m, m + core.len() as int) =~= core) by {
                lemma_subrange_of_extension(l2, l3, m, m + core.len() as int);
                assert(l2.subrange(m, m + core.len() as int) =~= core);
            }
            assert(is_busy_wait(l3.skip(m + core.len() as int))) by {
                assert(m + core.len() as int == l2.len() as int);
            }
            assert(appends_wait_core_wait(l0, l3, core));
        }
        Ok(())
    }

    /// Partial refresh of `region`: allowed only in `Ready`, and only for a
    /// region that lies whole inside the panel — a region outside it is
    /// rejected with `InvalidRegion` before any bus traffic. On success the
    /// controller waits busy-to-idle, pushes the window parameters and the
    /// covered frame-buffer bytes, issues the refresh command, and holds
    /// `Busy` until the busy line clears. Fast, but residual charge
    /// accumulates over many partial refreshes: the caller is responsible
    /// for an occasional `full_update` on long runs. A transport failure is
    /// surfaced as `Bus` after whatever prefix of the sequence was already
    /// sent.
    pub fn partial_update(&mut self, surface: &PixelSurface, region: Region) -> (r: Result<
        (),
        DisplayError,
    >)
        requires
            surface.wf(),
            surface.geom == old(self).geometry,
        ensures
            final(self).geometry == old(self).geometry,
            old(self).state !is Ready ==> r == Err::<(), DisplayError>(
                DisplayError::ProtocolError,
            ) && final(self).bus.log() == old(self).bus.log() && final(self).state == old(
                self,
            ).state,
            old(self).state is Ready && !region.in_bounds(old(self).geometry) ==> r == Err::<
                (),
                DisplayError,
            >(DisplayError::InvalidRegion) && final(self).bus.log() == old(self).bus.log()
                && final(self).state == old(self).state,
            old(self).state is Ready && region.in_bounds(old(self).geometry) ==> {
                &&& final(self).state is Ready
                &&& log_extends(old(self).bus.log(), final(self).bus.log())
                &&& (r is Ok ==> appends_wait_core_wait(
                    old(self).bus.log(),
                    final(self).bus.log(),
                    partial_events(old(self).geometry, surface.buf@, region),
                ))
                &&& (r is Err ==> r matches Err(DisplayError::Bus(_)))
            },
    {
        match self.state {
            ControllerState::Ready => {},
            _ => {
                return Err(DisplayError::ProtocolError);
            },
        }
        if !region.valid(&self.geometry) {
            return Err(DisplayError::InvalidRegion);
        }
        let ghost l0 = self.bus.log();
        wait_while_busy(&mut self.bus);
        let ghost l1 = self.bus.log();
        match send_command(&mut self.bus, CMD_PARTIAL_IN) {
            Ok(()) => {},
            Err(e) => {
                proof {
                    assert(self.bus.log().subrange(0, l0.len() as int) =~= l0);
                }
                return Err(DisplayError::Bus(e));
            },
        }
        match send_command(&mut self.bus, CMD_PARTIAL_WINDOW) {
            Ok(()) => {},
            Err(e) => {
                proof {
                    assert(self.bus.log().subrange(0, l0.len() as int) =~= l0);
                }
                return Err(DisplayError::Bus(e));
            },
        }
        let window = {
            let mut v: Vec<u8> = Vec::new();
            v.push((region.x / 256) as u8);
            v.push((region.x % 256) as u8);
            v.push((region.y / 256) as u8);
            v.push((region.y % 256) as u8);
            v.push((region.width / 256) as u8);
            v.push((region.width % 256) as u8);
            v.push((region.height / 256) as u8);
            v.push((region.height % 256) as u8);
            proof {
                assert(v@ =~= window_bytes(region));
            }
            v
        };
        match send_data(&mut self.bus, &window) {
            Ok(()) => {},
            Err(e) => {
                proof {
                    assert(self.bus.log().subrange(0, l0.len() as int) =~= l0);
                }
                return Err(DisplayError::Bus(e));
            },
        }
        match send_command(&mut self.bus, CMD_DATA_FRAME) {
            Ok(()) => {},
            Err(e) => {
                proof {
                    assert(self.bus.log().subrange(0, l0.len() as int) =~= l0);
                }
                return Err(DisplayError::Bus(e));
            },
        }
        let data = surface.region_bytes(region);
        match send_data(&mut self.bus, &data) {
            Ok(()) => {},
            Err(e) => {
                proof {
                    assert(self.bus.log().subrange(0, l0.len() as int) =~= l0);
                }
                return Err(DisplayError::Bus(e));
            },
        }
        match send_command(&mut self.bus, CMD_REFRESH) {
            Ok(()) => {},
            Err(e) => {
                proof {
                    assert(self.bus.log().subrange(0, l0.len() as int) =~= l0);
                }
                return Err(DisplayError::Bus(e));
            },
        }
        match send_command(&mut self.bus, CMD_PARTIAL_OUT) {
            Ok(()) => {},
            Err(e) => {
                proof {
                    assert(self.bus.log().subrange(0, l0.len() as int) =~= l0);
                }
                return Err(DisplayError::Bus(e));
            },
        }
        let ghost l2 = self.bus.log();
        self.state = ControllerState::Busy;
        wait_while_busy(&mut self.bus);
        self.state = ControllerState::Ready;
        proof {
            let l3 = self.bus.log();
            let core = partial_events(self.geometry, surface.buf@, region);
            let m = l1.len() as int;
            assert(l2 =~= l1 + core);
            assert(l3.subrange(0, l0.len() as int) =~= l0);
            assert(l3.subrange(l0.len() as int, m) =~= l1.skip(l0.len() as int)) by {
                assert(log_extends(l1, l2)) by {
                    assert(l2.subrange(0, l1.len() as int) =~= l1);
                }
                lemma_subrange_of_extension(l2, l3, l0.len() as int, m);
                lemma_subrange_of_extension(l1, l2, l0.len() as int, m);
                assert(l1.subrange(l0.len() as int, m) =~= l1.skip(l0.len() as int));
            }
            assert(l3.subrange(m, m + core.len() as int) =~= core) by {
                lemma_subrange_of_extension(l2, l3, m, m + core.len() as int);
                assert(l2.subrange(m, m + core.len() as int) =~= core);
            }
            assert(is_busy_wait(l3.skip(m + core.len() as int))) by {
                assert(m + core.len() as int == l2.len() as int);
            }
            assert(appends_wait_core_wait(l0, l3, core));
        }
        Ok(())
    }
}

/// The transfer payloads of an event sequence, in order.
pub open spec fn transfers_of(s: Seq<BusEvent>) -> Seq<Seq<u8>>
    decreases s.len(),
{
    if s.len() == 0 {
        Seq::empty()
    } else {
        match s.last() {
            BusEvent::Transfer(d) => transfers_of(s.drop_last()).push(d),
            _ => transfers_of(s.drop_last()),
        }
    }
}

proof fn lemma_transfers_of_concat(a: Seq<BusEvent>, b: Seq<BusEvent>)
    ensures
        transfers_of(a + b) == transfers_of(a) + transfers_of(b),
    decreases b.len(),
{
    if b.len() == 0 {
        assert(a + b =~= a);
        assert(transfers_of(a) + transfers_of(b) =~= transfers_of(a));
    } else {
        assert((a + b).drop_last() =~= a + b.drop_last());
        assert((a + b).last() == b.last());
        lemma_transfers_of_concat(a, b.drop_last());
        match b.last() {
            BusEvent::Transfer(d) => {
                assert((transfers_of(a) + transfers_of(b.drop_last())).push(d) =~= transfers_of(a)
                    + transfers_of(b.drop_last()).push(d));
            },
            _ => {},
        }
    }
}

proof fn lemma_transfers_of_reads(w: Seq<BusEvent>)
    requires
        all_busy_reads(w),
    ensures
        transfers_of(w) == Seq::<Seq<u8>>::empty(),
    decreases w.len(),
{
    if w.len() > 0 {
        assert(all_busy_reads(w.drop_last())) by {
            assert forall|i: int| 0 <= i < w.len() - 1 implies w.drop_last()[i] is ReadBusy by {
                assert(w.drop_last()[i] == w[i]);
            }
        }
        lemma_transfers_of_reads(w.drop_last());
    }
}

/// What a completed refresh trace puts on the wire is exactly the transfer
/// payloads of its core sequence: the busy polls around it carry no data.
pub proof fn lemma_trace_transfer_content(
    old: Seq<BusEvent>,
    new: Seq<BusEvent>,
    core: Seq<BusEvent>,
)
    requires
        appends_wait_core_wait(old, new, core),
    ensures
        transfers_of(new.skip(old.len() as int)) == transfers_of(core),
{
    let m = choose|m: int|
        {
            &&& old.len() < m
            &&& m + core.len() < new.len()
            &&& is_busy_wait(#[trigger] new.subrange(old.len() as int, m))
            &&& new.subrange(m, m + core.len()) == core
            &&& is_busy_wait(new.skip(m + core.len()))
        };
    let ext = new.skip(old.len() as int);
    let w1 = new.subrange(old.len() as int, m);
    let w2 = new.skip(m + core.len());
    assert(ext =~= (w1 + core) + w2);
    lemma_transfers_of_concat(w1 + core, w2);
    lemma_transfers_of_concat(w1, core);
    lemma_busy_wait_all_reads(w1);
    lemma_busy_wait_all_reads(w2);
    lemma_transfers_of_reads(w1);
    lemma_transfers_of_reads(w2);
    assert(transfers_of(ext) =~= transfers_of(core));
}

/// Content determinism of partial refresh: two partial updates of the same
/// region over byte-for-byte identical frame-buffer contents put identical
/// transfer payloads on the wire, whatever the bus logs held before and
/// however long each busy poll ran.
pub proof fn lemma_partial_update_deterministic(
    g: PanelGeometry,
    buf: Seq<u8>,
    r: Region,
    old1: Seq<BusEvent>,
    new1: Seq<BusEvent>,
    old2: Seq<BusEvent>,
    new2: Seq<BusEvent>,
)
    requires
        appends_wait_core_wait(old1, new1, partial_events(g, buf, r)),
        appends_wait_core_wait(old2, new2, partial_events(g, buf, r)),
    ensures
        transfers_of(new1.skip(old1.len() as int)) == transfers_of(new2.skip(old2.len() as int)),
{
    lemma_trace_transfer_content(old1, new1, partial_events(g, buf, r));
    lemma_trace_transfer_content(old2, new2, partial_events(g, buf, r));
}

} // verus!
