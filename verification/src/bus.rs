use vstd::prelude::*;

verus! {

/// Control lines of the panel, driven beside the data bus.
#[derive(Clone, Copy, Debug, PartialEq, Eq, Structural)]
pub enum Line {
    /// Power/enable line, pulsed low and back high during a reset.
    Enable,
    /// Data/command select: low while a command byte is on the bus, high
    /// while data bytes are.
    DataCommand,
}

/// Transport-level transfer failure. The controller surfaces it to callers
/// uninterpreted and never retries on its own.
#[derive(Clone, Copy, Debug, PartialEq, Eq, Structural)]
pub struct BusError {
    pub code: u8,
}

/// One observable action on the bus or its control lines. The contracts of
/// the display controller speak of the sequence of these events, oldest
/// first.
pub enum BusEvent {
    /// Bytes put on the wire by a successful transfer.
    Transfer(Seq<u8>),
    /// A control line driven high (`true`) or low (`false`).
    SetLine(Line, bool),
    /// A sample of the busy line and the level it reported.
    ReadBusy(bool),
    /// A blocking wait of at least the given number of microseconds.
    DelayUs(u32),
    /// A blocking wait of at least the given number of milliseconds.
    DelayMs(u32),
}

/// The serial-bus collaborator: transfer bytes, drive control lines, sample
/// the busy line, wait. The controller never assumes a particular transport;
/// it requires only these primitives.
///
/// `log()` is the abstract record of everything the port has done, and each
/// method appends exactly its own event, so a caller's contract pins the
/// complete bus traffic of an operation.
///
/// `busy_budget()` states the one liveness assumption of the protocol: a
/// port may report the busy line busy only finitely many samples in a row.
/// A port whose panel can hang forever cannot honour this bound; polling
/// such a panel blocks by design and needs an outside timeout.
pub trait BusPort: Sized {
    /// Every action performed so far, oldest first. The defaults are for
    /// ports outside the verifier: a verified port defines both, and the
    /// contracts below hold of its definitions.
    open spec fn log(&self) -> Seq<BusEvent> {
        Seq::empty()
    }

    /// Upper bound on how many more consecutive samples the busy line may
    /// still report busy before it reports idle.
    open spec fn busy_budget(&self) -> nat {
        0
    }

    /// Put `data` on the wire. On failure nothing was transferred.
    fn transfer(&mut self, data: &Vec<u8>) -> (r: Result<(), BusError>)
        ensures
            r is Ok ==> final(self).log() == old(self).log().push(
                BusEvent::Transfer(data@),
            ),
            r is Err ==> final(self).log() == old(self).log(),
    ;

    /// Drive a control line high (`true`) or low (`false`).
    fn set_line(&mut self, line: Line, level: bool)
        ensures
            final(self).log() == old(self).log().push(BusEvent::SetLine(line, level)),
    ;

    /// Sample the busy line; `true` while the panel is mid-operation. Each
    /// busy sample consumes budget, so a poll loop terminates.
    fn read_busy(&mut self) -> (busy: bool)
        ensures
            final(self).log() == old(self).log().push(BusEvent::ReadBusy(busy)),
            busy ==> final(self).busy_budget() < old(self).busy_budget(),
    ;

    /// Block for at least `n` microseconds.
    fn delay_us(&mut self, n: u32)
        ensures
            final(self).log() == old(self).log().push(BusEvent::DelayUs(n)),
    ;

    /// Block for at least `n` milliseconds.
    fn delay_ms(&mut self, n: u32)
        ensures
            final(self).log() == old(self).log().push(BusEvent::DelayMs(n)),
    ;
}

/// Every event in `s` is a busy-line sample.
pub open spec fn all_busy_reads(s: Seq<BusEvent>) -> bool {
    forall|i: int| 0 <= i < s.len() ==> s[i] is ReadBusy
}

/// The shape of one busy-to-idle poll: one or more samples, every one busy
/// except the last, which reports idle.
pub open spec fn is_busy_wait(s: Seq<BusEvent>) -> bool {
    &&& s.len() >= 1
    &&& forall|i: int| 0 <= i < s.len() - 1 ==> s[i] == BusEvent::ReadBusy(true)
    &&& s.last() == BusEvent::ReadBusy(false)
}

/// `s` is a busy-to-idle poll, so it holds samples only.
pub proof fn lemma_busy_wait_all_reads(s: Seq<BusEvent>)
    requires
        is_busy_wait(s),
    ensures
        all_busy_reads(s),
{
    assert forall|i: int| 0 <= i < s.len() implies s[i] is ReadBusy by {
        if i == s.len() - 1 {
            assert(s[i] == BusEvent::ReadBusy(false));
        } else {
            assert(s[i] == BusEvent::ReadBusy(true));
        }
    }
}

/// A busy line that stays busy for exactly `n` samples is sampled exactly
/// `n + 1` times by one busy-to-idle poll: `n` busy answers and the final
/// idle one.
pub proof fn lemma_busy_wait_sample_count(s: Seq<BusEvent>, n: nat)
    requires
        is_busy_wait(s),
        forall|i: int| 0 <= i < s.len() ==> (s[i] == BusEvent::ReadBusy(true) <==> i < n),
    ensures
        s.len() == n + 1,
{
    assert(s.last() == BusEvent::ReadBusy(false));
    assert(!(s.len() - 1 < n));
    if s.len() > n + 1 {
        assert(s[n as int] == BusEvent::ReadBusy(true));
    }
}

/// Poll the busy line until it reports idle. Appends one busy-to-idle poll
/// to the log and touches nothing else.
pub fn wait_while_busy<B: BusPort>(bus: &mut B)
    ensures
        old(bus).log().len() < final(bus).log().len(),
        final(bus).log().subrange(0, old(bus).log().len() as int) == old(bus).log(),
        is_busy_wait(final(bus).log().skip(old(bus).log().len() as int)),
{
    let ghost base = bus.log();
    loop
        invariant_except_break
            base.len() <= bus.log().len(),
            bus.log().subrange(0, base.len() as int) == base,
            forall|i: int|
                0 <= i < bus.log().len() - base.len() ==> bus.log().skip(
                    base.len() as int,
                )[i] == BusEvent::ReadBusy(true),
        ensures
            base.len() < bus.log().len(),
            bus.log().subrange(0, base.len() as int) == base,
            is_busy_wait(bus.log().skip(base.len() as int)),
        decreases bus.busy_budget(),
    {
        let ghost before = bus.log();
        let busy = bus.read_busy();
        proof {
            assert(bus.log().subrange(0, base.len() as int) =~= base);
            assert(bus.log().skip(base.len() as int) =~= before.skip(
                base.len() as int,
            ).push(BusEvent::ReadBusy(busy)));
        }
        if !busy {
            break;
        }
    }
}

/// Mirror of `BusEvent` with executable payloads: what the mock records.
pub enum MockAction {
    Transfer(Vec<u8>),
    SetLine(Line, bool),
    ReadBusy(bool),
    DelayUs(u32),
    DelayMs(u32),
}

impl MockAction {
    /// The event this recorded action stands for.
    pub open spec fn event(self) -> BusEvent {
        match self {
            MockAction::Transfer(d) => BusEvent::Transfer(d@),
            MockAction::SetLine(l, v) => BusEvent::SetLine(l, v),
            MockAction::ReadBusy(b) => BusEvent::ReadBusy(b),
            MockAction::DelayUs(n) => BusEvent::DelayUs(n),
            MockAction::DelayMs(n) => BusEvent::DelayMs(n),
        }
    }
}

/// The events of a recorded action sequence, oldest first.
pub open spec fn events_of(s: Seq<MockAction>) -> Seq<BusEvent>
    decreases s.len(),
{
    if s.len() == 0 {
        Seq::empty()
    } else {
        events_of(s.drop_last()).push(s.last().event())
    }
}

proof fn lemma_events_of_push(s: Seq<MockAction>, a: MockAction)
    ensures
        events_of(s.push(a)) == events_of(s).push(a.event()),
{
    assert(s.push(a).drop_last() =~= s);
    assert(s.push(a).last() == a);
}

/// A recording bus for tests: it logs every action, reports the busy line
/// busy for a programmed number of samples, and can be told to refuse
/// transfers.
pub struct MockBus {
    pub actions: Vec<MockAction>,
    pub busy_samples: u32,
    pub refuse_transfers: bool,
}

impl MockBus {
    /// A fresh mock: empty log, idle busy line, transfers succeed.
    pub fn new() -> (b: MockBus)
        ensures
            b.log() == Seq::<BusEvent>::empty(),
            b.busy_budget() == 0,
            b.actions@.len() == 0,
    {
        MockBus { actions: Vec::new(), busy_samples: 0, refuse_transfers: false }
    }

    /// The busy line will report busy for exactly the next `n` samples.
    pub fn arm_busy(&mut self, n: u32)
        ensures
            final(self).log() == old(self).log(),
            final(self).busy_budget() == n as nat,
            final(self).actions == old(self).actions,
            final(self).refuse_transfers == old(self).refuse_transfers,
    {
        self.busy_samples = n;
    }

    /// Every following transfer fails.
    pub fn refuse_transfers(&mut self)
        ensures
            final(self).log() == old(self).log(),
            final(self).busy_budget() == old(self).busy_budget(),
            final(self).refuse_transfers,
    {
        self.refuse_transfers = true;
    }

    fn record(&mut self, a: MockAction)
        ensures
            final(self).log() == old(self).log().push(a.event()),
            final(self).busy_samples == old(self).busy_samples,
            final(self).refuse_transfers == old(self).refuse_transfers,
    {
        proof {
            lemma_events_of_push(self.actions@, a);
        }
        self.actions.push(a);
    }
}

/// Copy of the bytes of `data`, element for element.
fn copy_bytes(data: &Vec<u8>) -> (out: Vec<u8>)
    ensures
        out@ == data@,
{
    let mut out: Vec<u8> = Vec::new();
    let mut i: usize = 0;
    while i < data.len()
        invariant
            i <= data.len(),
            out@ == data@.subrange(0, i as int),
        decreases data.len() - i,
    {
        out.push(data[i]);
        proof {
            assert(data@.subrange(0, i as int).push(data@[i as int]) =~= data@.subrange(
                0,
                i as int + 1,
            ));
        }
        i = i + 1;
    }
    proof {
        assert(data@.subrange(0, data@.len() as int) =~= data@);
    }
    out
}

impl BusPort for MockBus {
    open spec fn log(&self) -> Seq<BusEvent> {
        events_of(self.actions@)
    }

    open spec fn busy_budget(&self) -> nat {
        self.busy_samples as nat
    }

    fn transfer(&mut self, data: &Vec<u8>) -> (r: Result<(), BusError>) {
        if self.refuse_transfers {
            Err(BusError { code: 0 })
        } else {
            let copy = copy_bytes(data);
            self.record(MockAction::Transfer(copy));
            Ok(())
        }
    }

    fn set_line(&mut self, line: Line, level: bool) {
        self.record(MockAction::SetLine(line, level));
    }

    fn read_busy(&mut self) -> (busy: bool) {
        let busy = self.busy_samples > 0;
        if busy {
            self.busy_samples = self.busy_samples - 1;
        }
        self.record(MockAction::ReadBusy(busy));
        busy
    }

    fn delay_us(&mut self, n: u32) {
        self.record(MockAction::DelayUs(n));
    }

    fn delay_ms(&mut self, n: u32) {
        self.record(MockAction::DelayMs(n));
    }
}

} // verus!
