use vstd::prelude::*;
use crate::sample::{Sample, non_decreasing};

verus! {

/// A physical-layer error of one direction of the line.
#[derive(Debug, Clone, Copy, PartialEq, Eq, Structural)]
pub enum SerialError {
    /// The stop bit was sampled low, or the input ended inside a byte.
    Framing,
    /// The parity bit disagrees with the data bits.
    Parity,
    /// A flow-control violation.
    FlowControl,
}

/// What the UART decoder reports; `Rx`/`Rts` belong to the receive line and
/// its flow control, `Tx`/`Cts` to the transmit line and its flow control.
#[derive(Debug, Clone, Copy, PartialEq, Eq, Structural)]
pub enum SerialEvent {
    Rx(u8),
    Tx(u8),
    Cts(bool),
    Rts(bool),
    TxError(SerialError),
    RxError(SerialError),
}

impl SerialEvent {
    pub fn is_error(&self) -> (r: bool)
        ensures
            r == (self is RxError || self is TxError),
    {
        match self {
            SerialEvent::RxError(_) | SerialEvent::TxError(_) => true,
            _ => false,
        }
    }
}

/// Parity bit after the eight data bits, if any.
#[derive(Debug, Clone, Copy, PartialEq, Eq, Structural)]
pub enum Parity {
    Even,
    Odd,
    /// Parity bit always set.
    Mark,
    /// Parity bit always clear.
    Space,
    NoParity,
}

/// Which line a monitor watches.
#[derive(Debug, Clone, Copy, PartialEq, Eq, Structural)]
pub enum Direction {
    Rx,
    Tx,
}

/// Where a monitor is in the frame of the current byte.
#[derive(Debug, Clone, Copy, PartialEq, Eq, Structural)]
pub enum MonitorState {
    /// Line idle, waiting for a start bit.
    Idle,
    /// Start bit seen at the monitor's time.
    Start,
    /// Shift register and number of data bits captured.
    Data(u8, u32),
    /// All data bits captured; the parity bit is next.
    Parity(u8),
    /// The byte, and whether its parity was right; the stop bit is next.
    Stop(u8, bool),
}

/// Bit-sampling state machine for one direction of the line.
///
/// Times are in units of `1 / (2 * baud)` ticks, so that half a bit is a
/// whole number of units: `bit` is the length of one bit. `ts` is the last
/// sampling instant (or the time of the last sample while idle), `start`
/// the time the current byte's start bit was seen, `data` the line level
/// since the last sample.
#[derive(Debug, Clone, Copy, PartialEq, Eq, Structural)]
pub struct Monitor {
    pub dir: Direction,
    pub state: MonitorState,
    pub ts: i128,
    pub start: i128,
    pub data: bool,
    pub has_fc: bool,
    pub last_fc: bool,
    pub bit: i128,
    pub parity: Parity,
}

/// Time before any sample can lie.
pub const TIME_ORIGIN: i128 = -0x10_0000_0000_0000_0000_0000_0000;

/// Bound on the magnitude of a sample time handed to a monitor.
pub const TIME_LIMIT: i128 = 0x2_0000_0000_0000_0000_0000_0000;

/// Bound on the length of one bit.
pub const BIT_LIMIT: i128 = 0x4_0000_0000_0000_0000;

pub open spec fn monitor_wf(m: Monitor) -> bool {
    &&& 0 < m.bit <= BIT_LIMIT
    &&& m.bit % 2 == 0
    &&& TIME_ORIGIN <= m.ts <= TIME_LIMIT
    &&& TIME_ORIGIN <= m.start <= TIME_LIMIT
    &&& match m.state {
        MonitorState::Data(_, n) => 1 <= n < 8,
        _ => true,
    }
}

pub open spec fn data_event(d: Direction, b: u8) -> SerialEvent {
    match d {
        Direction::Rx => SerialEvent::Rx(b),
        Direction::Tx => SerialEvent::Tx(b),
    }
}

pub open spec fn error_event(d: Direction, e: SerialError) -> SerialEvent {
    match d {
        Direction::Rx => SerialEvent::RxError(e),
        Direction::Tx => SerialEvent::TxError(e),
    }
}

pub open spec fn fc_event(d: Direction, b: bool) -> SerialEvent {
    match d {
        Direction::Rx => SerialEvent::Rts(b),
        Direction::Tx => SerialEvent::Cts(b),
    }
}

/// Number of set bits of `x`.
pub open spec fn ones(x: nat) -> nat
    decreases x,
{
    if x == 0 {
        0
    } else {
        x % 2 + ones(x / 2)
    }
}

/// Whether parity bit `b` is right for data byte `reg`.
pub open spec fn parity_ok(p: Parity, reg: u8, b: bool) -> bool {
    match p {
        Parity::Even => b == (ones(reg as nat) % 2 == 1),
        Parity::Odd => b == (ones(reg as nat) % 2 == 0),
        Parity::Mark => b,
        Parity::Space => !b,
        Parity::NoParity => true,
    }
}

/// `reg` shifted towards the least significant bit with `b` as the new most
/// significant bit: data bits arrive least significant first.
pub open spec fn capture(reg: u8, b: bool) -> u8 {
    (reg / 2 + if b { 128int } else { 0int }) as u8
}

/// The next sampling instant of `m` before time `ts`, if there is one: the
/// monitor after it and the events it brings, stamped with that instant.
/// `data` is the line level at `ts`, which an idle monitor looks at for a
/// start bit; the other states read the level held since the last sample.
pub open spec fn bit_step(m: Monitor, ts: int, data: bool) -> Option<(Monitor, Seq<(i128, SerialEvent)>)> {
    match m.state {
        MonitorState::Idle => if !data {
            Some((Monitor { state: MonitorState::Start, ts: ts as i128, start: ts as i128, ..m }, Seq::empty()))
        } else {
            Some((Monitor { ts: ts as i128, ..m }, Seq::empty()))
        },
        MonitorState::Start => if m.ts + m.bit + m.bit / 2 < ts {
            let t = (m.ts + m.bit + m.bit / 2) as i128;
            Some((Monitor { state: MonitorState::Data(capture(0, m.data), 1), ts: t, ..m }, Seq::empty()))
        } else {
            None
        },
        MonitorState::Data(reg, n) => if m.ts + m.bit < ts {
            let t = (m.ts + m.bit) as i128;
            let r = capture(reg, m.data);
            let st = if n + 1 < 8 {
                MonitorState::Data(r, (n + 1) as u32)
            } else if m.parity == Parity::NoParity {
                MonitorState::Stop(r, true)
            } else {
                MonitorState::Parity(r)
            };
            Some((Monitor { state: st, ts: t, ..m }, Seq::empty()))
        } else {
            None
        },
        MonitorState::Parity(reg) => if m.ts + m.bit < ts {
            let t = (m.ts + m.bit) as i128;
            let ok = parity_ok(m.parity, reg, m.data);
            let evs = if ok { Seq::empty() } else { seq![(t, error_event(m.dir, SerialError::Parity))] };
            Some((Monitor { state: MonitorState::Stop(reg, ok), ts: t, ..m }, evs))
        } else {
            None
        },
        MonitorState::Stop(reg, ok) => if m.ts + m.bit < ts {
            let t = (m.ts + m.bit) as i128;
            let evs = if !m.data {
                seq![(t, error_event(m.dir, SerialError::Framing))]
            } else if ok {
                seq![(t, data_event(m.dir, reg))]
            } else {
                Seq::empty()
            };
            Some((Monitor { state: MonitorState::Idle, ts: t, ..m }, evs))
        } else {
            None
        },
    }
}

/// All sampling instants of `m` before time `ts`, taken in order.
pub open spec fn advance(m: Monitor, ts: int, data: bool) -> (Monitor, Seq<(i128, SerialEvent)>)
    decreases ts - m.ts,
{
    if m.ts >= ts {
        (m, Seq::empty())
    } else {
        match bit_step(m, ts, data) {
            None => (m, Seq::empty()),
            Some((m2, evs)) => if m2.ts <= m.ts || m2.ts > ts {
                (m, Seq::empty())
            } else {
                let (m3, more) = advance(m2, ts, data);
                (m3, evs + more)
            },
        }
    }
}

/// Advancing changes only the state and the times of a monitor.
pub proof fn lemma_advance_frame(m: Monitor, ts: int, data: bool)
    ensures
        ({
            let m2 = advance(m, ts, data).0;
            &&& m2.dir == m.dir
            &&& m2.data == m.data
            &&& m2.has_fc == m.has_fc
            &&& m2.last_fc == m.last_fc
            &&& m2.bit == m.bit
            &&& m2.parity == m.parity
        }),
    decreases ts - m.ts,
{
    if m.ts < ts {
        match bit_step(m, ts, data) {
            None => {},
            Some((m2, evs)) => {
                if !(m2.ts <= m.ts || m2.ts > ts) {
                    lemma_advance_frame(m2, ts, data);
                }
            },
        }
    }
}

/// One sample through a monitor: the bit instants before it, then a change
/// of the flow-control line (reported only when that line is configured).
pub open spec fn monitor_update(m: Monitor, ts: i128, data: bool, fc: bool) -> (Monitor, Seq<(i128, SerialEvent)>) {
    let (m2, evs) = advance(m, ts as int, data);
    if m.has_fc && m.last_fc != fc {
        (Monitor { data, last_fc: fc, ..m2 }, evs.push((ts, fc_event(m.dir, fc))))
    } else {
        (Monitor { data, ..m2 }, evs)
    }
}

/// What a monitor still holds when the input ends: a byte waiting for its
/// stop bit is reported at the stop bit's instant, a byte cut short is a
/// framing error at the time its start bit was seen.
pub open spec fn monitor_finalize(m: Monitor) -> (Monitor, Seq<(i128, SerialEvent)>) {
    let m2 = Monitor { state: MonitorState::Idle, ..m };
    match m.state {
        MonitorState::Idle => (m2, Seq::empty()),
        MonitorState::Stop(reg, ok) => if ok {
            (m2, seq![((m.ts + m.bit) as i128, data_event(m.dir, reg))])
        } else {
            (m2, Seq::empty())
        },
        _ => (m2, seq![(m.start, error_event(m.dir, SerialError::Framing))]),
    }
}

/// Stable merge by timestamp: on equal times the events of `a` come first.
pub open spec fn merge(a: Seq<(i128, SerialEvent)>, b: Seq<(i128, SerialEvent)>) -> Seq<(i128, SerialEvent)>
    decreases a.len() + b.len(),
{
    if a.len() == 0 {
        b
    } else if b.len() == 0 {
        a
    } else if a[0].0 <= b[0].0 {
        seq![a[0]] + merge(a.drop_first(), b)
    } else {
        seq![b[0]] + merge(a, b.drop_first())
    }
}

fn ones_parity(reg: u8) -> (r: bool)
    ensures
        r == (ones(reg as nat) % 2 == 1),
{
    let mut x: u8 = reg;
    let mut odd = false;
    while x > 0
        invariant
            (ones(reg as nat) % 2 == 1) == (odd != (ones(x as nat) % 2 == 1)),
        decreases x,
    {
        if x % 2 == 1 {
            odd = !odd;
        }
        x = x / 2;
    }
    odd
}

fn check_parity(p: Parity, reg: u8, b: bool) -> (r: bool)
    ensures
        r == parity_ok(p, reg, b),
{
    match p {
        Parity::Even => b == ones_parity(reg),
        Parity::Odd => b != ones_parity(reg),
        Parity::Mark => b,
        Parity::Space => !b,
        Parity::NoParity => true,
    }
}

fn capture_bit(reg: u8, b: bool) -> (r: u8)
    ensures
        r == capture(reg, b),
{
    if b {
        reg / 2 + 128
    } else {
        reg / 2
    }
}

fn data_ev(d: Direction, b: u8) -> (r: SerialEvent)
    ensures
        r == data_event(d, b),
{
    match d {
        Direction::Rx => SerialEvent::Rx(b),
        Direction::Tx => SerialEvent::Tx(b),
    }
}

fn error_ev(d: Direction, e: SerialError) -> (r: SerialEvent)
    ensures
        r == error_event(d, e),
{
    match d {
        Direction::Rx => SerialEvent::RxError(e),
        Direction::Tx => SerialEvent::TxError(e),
    }
}

fn fc_ev(d: Direction, b: bool) -> (r: SerialEvent)
    ensures
        r == fc_event(d, b),
{
    match d {
        Direction::Rx => SerialEvent::Rts(b),
        Direction::Tx => SerialEvent::Cts(b),
    }
}

impl Monitor {
    /// An idle monitor of direction `dir` with bit length `bit`; a line is
    /// idle high, and a configured flow-control line starts low.
    pub fn new(dir: Direction, bit: i128, parity: Parity, has_fc: bool) -> (r: Monitor)
        requires
            0 < bit <= BIT_LIMIT,
            bit % 2 == 0,
        ensures
            monitor_wf(r),
            r == (Monitor {
                dir,
                state: MonitorState::Idle,
                ts: TIME_ORIGIN,
                start: TIME_ORIGIN,
                data: true,
                has_fc,
                last_fc: false,
                bit,
                parity,
            }),
    {
        Monitor { dir, state: MonitorState::Idle, ts: TIME_ORIGIN, start: TIME_ORIGIN, data: true, has_fc, last_fc: false, bit, parity }
    }

    fn bit_step(&mut self, ts: i128, data: bool, out: &mut Vec<(i128, SerialEvent)>) -> (progressed: bool)
        requires
            monitor_wf(*old(self)),
            old(self).ts < ts <= TIME_LIMIT,
        ensures
            progressed == bit_step(*old(self), ts as int, data) is Some,
            progressed ==> {
                &&& monitor_wf(*final(self))
                &&& old(self).ts < final(self).ts <= ts
                &&& *final(self) == bit_step(*old(self), ts as int, data).unwrap().0
                &&& final(out)@ == old(out)@ + bit_step(*old(self), ts as int, data).unwrap().1
            },
            !progressed ==> *final(self) == *old(self) && final(out)@ == old(out)@,
    {
        let ghost out0 = out@;
        match self.state {
            MonitorState::Idle => {
                if !data {
                    self.state = MonitorState::Start;
                    self.start = ts;
                }
                self.ts = ts;
                true
            },
            MonitorState::Start => {
                if self.ts + self.bit + self.bit / 2 < ts {
                    self.state = MonitorState::Data(capture_bit(0, self.data), 1);
                    self.ts = self.ts + self.bit + self.bit / 2;
                    true
                } else {
                    false
                }
            },
            MonitorState::Data(reg, n) => {
                if self.ts + self.bit < ts {
                    let r = capture_bit(reg, self.data);
                    self.state = if n + 1 < 8 {
                        MonitorState::Data(r, n + 1)
                    } else if self.parity == Parity::NoParity {
                        MonitorState::Stop(r, true)
                    } else {
                        MonitorState::Parity(r)
                    };
                    self.ts = self.ts + self.bit;
                    true
                } else {
                    false
                }
            },
            MonitorState::Parity(reg) => {
                if self.ts + self.bit < ts {
                    let t = self.ts + self.bit;
                    let ok = check_parity(self.parity, reg, self.data);
                    if !ok {
                        out.push((t, error_ev(self.dir, SerialError::Parity)));
                    }
                    self.state = MonitorState::Stop(reg, ok);
                    self.ts = t;
                    proof {
                        if ok {
                            assert(out@ =~= out0 + Seq::<(i128, SerialEvent)>::empty());
                        }
                    }
                    true
                } else {
                    false
                }
            },
            MonitorState::Stop(reg, ok) => {
                if self.ts + self.bit < ts {
                    let t = self.ts + self.bit;
                    if !self.data {
                        out.push((t, error_ev(self.dir, SerialError::Framing)));
                    } else if ok {
                        out.push((t, data_ev(self.dir, reg)));
                    }
                    self.state = MonitorState::Idle;
                    self.ts = t;
                    proof {
                        if self.data && !ok {
                            assert(out@ =~= out0 + Seq::<(i128, SerialEvent)>::empty());
                        }
                    }
                    true
                } else {
                    false
                }
            },
        }
    }

    fn advance(&mut self, ts: i128, data: bool, out: &mut Vec<(i128, SerialEvent)>)
        requires
            monitor_wf(*old(self)),
            ts <= TIME_LIMIT,
        ensures
            monitor_wf(*final(self)),
            *final(self) == advance(*old(self), ts as int, data).0,
            final(out)@ == old(out)@ + advance(*old(self), ts as int, data).1,
    {
        let ghost m0 = *self;
        let ghost out0 = out@;
        let mut go = true;
        while go && self.ts < ts
            invariant
                monitor_wf(*self),
                !go ==> self.ts < ts && bit_step(*self, ts as int, data) is None,
                ts <= TIME_LIMIT,
                out@.len() >= out0.len(),
                out@.take(out0.len() as int) == out0,
                advance(m0, ts as int, data) == (advance(*self, ts as int, data).0, out@.skip(out0.len() as int) + advance(*self, ts as int, data).1),
            decreases 2 * (ts - self.ts) + if go { 1int } else { 0int },
        {
            let ghost m = *self;
            let ghost before = out@;
            go = self.bit_step(ts, data, out);
            proof {
              if go {
                let added = out@.skip(out0.len() as int);
                let prev = before.skip(out0.len() as int);
                let new_evs = out@.skip(before.len() as int);
                assert(out@.take(out0.len() as int) =~= out0);
                assert(out@ =~= before + new_evs);
                assert(added =~= prev + new_evs);
                let (mf, rest) = advance(*self, ts as int, data);
                assert(advance(m, ts as int, data) == (mf, new_evs + rest));
                assert(prev + (new_evs + rest) =~= added + rest);
              } else {
                assert(out@ =~= before);
              }
            }
        }
        proof {
            assert(advance(*self, ts as int, data).1 =~= Seq::<(i128, SerialEvent)>::empty());
            assert(out0 + out@.skip(out0.len() as int) =~= out@);
        }
    }

    /// Feeds the line levels of one sample at time `ts`.
    pub fn update(&mut self, ts: i128, data: bool, fc: bool, out: &mut Vec<(i128, SerialEvent)>)
        requires
            monitor_wf(*old(self)),
            -TIME_LIMIT <= ts <= TIME_LIMIT,
        ensures
            monitor_wf(*final(self)),
            *final(self) == monitor_update(*old(self), ts, data, fc).0,
            final(out)@ == old(out)@ + monitor_update(*old(self), ts, data, fc).1,
    {
        proof {
            lemma_advance_frame(*self, ts as int, data);
        }
        self.advance(ts, data, out);
        self.data = data;
        if self.has_fc && self.last_fc != fc {
            self.last_fc = fc;
            out.push((ts, fc_ev(self.dir, fc)));
        }
    }

    /// Flushes a byte in progress at the end of the input.
    pub fn finalize(&mut self, out: &mut Vec<(i128, SerialEvent)>)
        requires
            monitor_wf(*old(self)),
        ensures
            monitor_wf(*final(self)),
            *final(self) == monitor_finalize(*old(self)).0,
            final(out)@ == old(out)@ + monitor_finalize(*old(self)).1,
    {
        let ghost out0 = out@;
        match self.state {
            MonitorState::Idle => {},
            MonitorState::Stop(reg, ok) => {
                if ok {
                    out.push((self.ts + self.bit, data_ev(self.dir, reg)));
                }
            },
            _ => {
                out.push((self.start, error_ev(self.dir, SerialError::Framing)));
            },
        }
        self.state = MonitorState::Idle;
        proof {
            if out@.len() == out0.len() {
                assert(out@ =~= out0 + Seq::<(i128, SerialEvent)>::empty());
            }
        }
    }
}

/// Appends the stable merge of `a` and `b` by timestamp to `out`.
fn merge_into(a: &Vec<(i128, SerialEvent)>, b: &Vec<(i128, SerialEvent)>, out: &mut Vec<(i128, SerialEvent)>)
    ensures
        final(out)@ == old(out)@ + merge(a@, b@),
{
    let ghost out0 = out@;
    let mut i: usize = 0;
    let mut j: usize = 0;
    proof {
        assert(a@.skip(0) =~= a@);
        assert(b@.skip(0) =~= b@);
        assert(out@.skip(out0.len() as int) =~= Seq::<(i128, SerialEvent)>::empty());
        assert(Seq::<(i128, SerialEvent)>::empty() + merge(a@, b@) =~= merge(a@, b@));
    }
    while i < a.len() || j < b.len()
        invariant
            i <= a.len(),
            j <= b.len(),
            out@.len() >= out0.len(),
            out@.take(out0.len() as int) == out0,
            merge(a@, b@) == out@.skip(out0.len() as int) + merge(a@.skip(i as int), b@.skip(j as int)),
        decreases a.len() - i + b.len() - j,
    {
        let ghost before = out@;
        let ghost rest = merge(a@.skip(i as int), b@.skip(j as int));
        if i < a.len() && (j == b.len() || a[i].0 <= b[j].0) {
            proof {
                assert(a@.skip(i as int).drop_first() =~= a@.skip(i + 1));
                assert(a@.skip(i as int)[0] == a@[i as int]);
                if j < b.len() {
                    assert(b@.skip(j as int)[0] == b@[j as int]);
                }
                assert(rest == seq![a@[i as int]] + merge(a@.skip(i + 1), b@.skip(j as int)));
            }
            out.push(a[i]);
            i = i + 1;
        } else {
            proof {
                assert(b@.skip(j as int).drop_first() =~= b@.skip(j + 1));
                assert(b@.skip(j as int)[0] == b@[j as int]);
                if i < a.len() {
                    assert(a@.skip(i as int)[0] == a@[i as int]);
                }
                assert(rest == seq![b@[j as int]] + merge(a@.skip(i as int), b@.skip(j + 1)));
            }
            out.push(b[j]);
            j = j + 1;
        }
        proof {
            assert(out@.take(out0.len() as int) =~= out0);
            assert(out@.skip(out0.len() as int) =~= before.skip(out0.len() as int).push(out@.last()));
            let added = before.skip(out0.len() as int);
            assert(added + rest =~= out@.skip(out0.len() as int) + merge(a@.skip(i as int), b@.skip(j as int)));
        }
    }
    proof {
        assert(a@.skip(i as int) =~= Seq::<(i128, SerialEvent)>::empty());
        assert(b@.skip(j as int) =~= Seq::<(i128, SerialEvent)>::empty());
        assert(out0 + out@.skip(out0.len() as int) =~= out@);
        assert(out@.skip(out0.len() as int) + Seq::<(i128, SerialEvent)>::empty() =~= out@.skip(out0.len() as int));
    }
}

/// Channels and time scale of the UART decoder. `scale` is twice the baud
/// rate: a sample at tick `t` lies at `t * scale` monitor time units.
#[derive(Debug, Clone, Copy, PartialEq, Eq, Structural)]
pub struct SerialConfig {
    pub tx: u8,
    pub rx: u8,
    pub rts: Option<u8>,
    pub cts: Option<u8>,
    pub scale: i128,
}

/// Level of an optional flow-control channel; an absent one reads low.
pub open spec fn fc_level(ch: Option<u8>, smp: Sample) -> bool {
    match ch {
        Some(c) => smp.level(c),
        None => false,
    }
}

/// One sample through both monitors; the events of both are merged by time,
/// receive side first on equal times.
pub open spec fn serial_step(cfg: SerialConfig, rx: Monitor, tx: Monitor, smp: Sample) -> (Monitor, Monitor, Seq<(i128, SerialEvent)>) {
    let t = (smp.timestamp * cfg.scale) as i128;
    let (rx2, e1) = monitor_update(rx, t, smp.level(cfg.rx), fc_level(cfg.rts, smp));
    let (tx2, e2) = monitor_update(tx, t, smp.level(cfg.tx), fc_level(cfg.cts, smp));
    (rx2, tx2, merge(e1, e2))
}

pub open spec fn serial_run(cfg: SerialConfig, rx: Monitor, tx: Monitor, s: Seq<Sample>) -> (Monitor, Monitor, Seq<(i128, SerialEvent)>)
    decreases s.len(),
{
    if s.len() == 0 {
        (rx, tx, Seq::empty())
    } else {
        let (rx1, tx1, e) = serial_run(cfg, rx, tx, s.drop_last());
        let (rx2, tx2, more) = serial_step(cfg, rx1, tx1, s.last());
        (rx2, tx2, e + more)
    }
}

/// End of input: what both monitors still hold, merged by time, transmit
/// side first on equal times.
pub open spec fn serial_finish(rx: Monitor, tx: Monitor) -> (Monitor, Monitor, Seq<(i128, SerialEvent)>) {
    let (tx2, e1) = monitor_finalize(tx);
    let (rx2, e2) = monitor_finalize(rx);
    (rx2, tx2, merge(e1, e2))
}

/// Asynchronous serial decoder for a transmit and a receive line, with
/// optional RTS and CTS lines.
pub struct Serial {
    config: SerialConfig,
    rx: Monitor,
    tx: Monitor,
    per_second: u128,
    inspect: bool,
}

impl Serial {
    pub closed spec fn config(&self) -> SerialConfig {
        self.config
    }

    pub closed spec fn rx(&self) -> Monitor {
        self.rx
    }

    pub closed spec fn tx(&self) -> Monitor {
        self.tx
    }

    pub closed spec fn per_second(&self) -> u128 {
        self.per_second
    }

    pub closed spec fn inspect_flag(&self) -> bool {
        self.inspect
    }

    pub closed spec fn wf(&self) -> bool {
        &&& monitor_wf(self.rx)
        &&& monitor_wf(self.tx)
        &&& 2 <= self.config.scale <= 0x2_0000_0000
    }

    /// A decoder of `baud` bits per second over samples whose timestamps
    /// run at `ticks_per_second`. `rts` and `cts` name the flow-control
    /// channels, if any; an absent one is never reported.
    pub fn new(
        tx: u8,
        rx: u8,
        rts: Option<u8>,
        cts: Option<u8>,
        baud: u32,
        parity: Parity,
        ticks_per_second: u64,
        inspect: bool,
    ) -> (r: Serial)
        requires
            baud > 0,
            ticks_per_second > 0,
        ensures
            r.wf(),
            r.config() == (SerialConfig { tx, rx, rts, cts, scale: (2 * baud) as i128 }),
            r.rx() == (Monitor {
                dir: Direction::Rx,
                state: MonitorState::Idle,
                ts: TIME_ORIGIN,
                start: TIME_ORIGIN,
                data: true,
                has_fc: rts is Some,
                last_fc: false,
                bit: (2 * ticks_per_second) as i128,
                parity,
            }),
            r.tx() == (Monitor {
                dir: Direction::Tx,
                state: MonitorState::Idle,
                ts: TIME_ORIGIN,
                start: TIME_ORIGIN,
                data: true,
                has_fc: cts is Some,
                last_fc: false,
                bit: (2 * ticks_per_second) as i128,
                parity,
            }),
            r.per_second() == 2 * baud * ticks_per_second,
            r.inspect_flag() == inspect,
    {
        let bit: i128 = 2 * ticks_per_second as i128;
        let scale: i128 = 2 * baud as i128;
        assert(2 * (baud as int) * (ticks_per_second as int) <= 0x2_0000_0000 * 0x1_0000_0000_0000_0000) by (nonlinear_arith)
            requires
                baud <= 0xFFFF_FFFF,
                ticks_per_second <= 0xFFFF_FFFF_FFFF_FFFF,
        ;
        Serial {
            config: SerialConfig { tx, rx, rts, cts, scale },
            rx: Monitor::new(Direction::Rx, bit, parity, rts.is_some()),
            tx: Monitor::new(Direction::Tx, bit, parity, cts.is_some()),
            per_second: 2 * baud as u128 * ticks_per_second as u128,
            inspect,
        }
    }

    /// Monitor time units per second: event timestamps divided by this are seconds.
    pub fn units_per_second(&self) -> (r: u128)
        ensures
            r == self.per_second(),
    {
        self.per_second
    }

    pub fn inspect(&self) -> (r: bool)
        ensures
            r == self.inspect_flag(),
    {
        self.inspect
    }

    /// Feeds one sample and appends the events it brings to `out`.
    pub fn update(&mut self, smp: Sample, out: &mut Vec<(i128, SerialEvent)>)
        requires
            old(self).wf(),
        ensures
            final(self).wf(),
            final(self).config() == old(self).config(),
            final(self).per_second() == old(self).per_second(),
            final(self).inspect_flag() == old(self).inspect_flag(),
            ({
                let (rx, tx, evs) = serial_step(old(self).config(), old(self).rx(), old(self).tx(), smp);
                &&& final(self).rx() == rx
                &&& final(self).tx() == tx
                &&& final(out)@ == old(out)@ + evs
            }),
    {
        let cfg = self.config;
        assert(-0x8000_0000_0000_0000 * 0x2_0000_0000 <= smp.timestamp * cfg.scale <= 0x8000_0000_0000_0000 * 0x2_0000_0000)
            by (nonlinear_arith)
            requires
                2 <= cfg.scale <= 0x2_0000_0000,
                -0x8000_0000_0000_0000 <= smp.timestamp < 0x8000_0000_0000_0000,
        ;
        let t: i128 = smp.timestamp as i128 * cfg.scale;
        let rts = match cfg.rts {
            Some(c) => smp.channel(c),
            None => false,
        };
        let cts = match cfg.cts {
            Some(c) => smp.channel(c),
            None => false,
        };
        let mut e1: Vec<(i128, SerialEvent)> = Vec::new();
        let mut e2: Vec<(i128, SerialEvent)> = Vec::new();
        self.rx.update(t, smp.channel(cfg.rx), rts, &mut e1);
        self.tx.update(t, smp.channel(cfg.tx), cts, &mut e2);
        proof {
            assert(Seq::<(i128, SerialEvent)>::empty() + monitor_update(old(self).rx, t, smp.level(cfg.rx), rts).1
                =~= monitor_update(old(self).rx, t, smp.level(cfg.rx), rts).1);
            assert(Seq::<(i128, SerialEvent)>::empty() + monitor_update(old(self).tx, t, smp.level(cfg.tx), cts).1
                =~= monitor_update(old(self).tx, t, smp.level(cfg.tx), cts).1);
        }
        merge_into(&e1, &e2, out);
    }

    /// Feeds every sample in order and returns the events they bring.
    pub fn decode(&mut self, samples: &Vec<Sample>) -> (r: Vec<(i128, SerialEvent)>)
        requires
            old(self).wf(),
        ensures
            final(self).wf(),
            final(self).config() == old(self).config(),
            final(self).per_second() == old(self).per_second(),
            final(self).inspect_flag() == old(self).inspect_flag(),
            (final(self).rx(), final(self).tx(), r@) == serial_run(old(self).config(), old(self).rx(), old(self).tx(), samples@),
    {
        let mut out: Vec<(i128, SerialEvent)> = Vec::new();
        let mut i: usize = 0;
        while i < samples.len()
            invariant
                self.wf(),
                self.config() == old(self).config(),
                self.per_second() == old(self).per_second(),
                self.inspect_flag() == old(self).inspect_flag(),
                i <= samples.len(),
                (self.rx(), self.tx(), out@) == serial_run(old(self).config(), old(self).rx(), old(self).tx(), samples@.take(i as int)),
            decreases samples.len() - i,
        {
            proof {
                assert(samples@.take(i + 1).drop_last() =~= samples@.take(i as int));
            }
            self.update(samples[i], &mut out);
            i = i + 1;
        }
        proof {
            assert(samples@.take(i as int) =~= samples@);
        }
        out
    }

    /// End of input: reports what both monitors still hold and leaves them idle.
    pub fn finalize(&mut self) -> (r: Vec<(i128, SerialEvent)>)
        requires
            old(self).wf(),
        ensures
            final(self).wf(),
            final(self).config() == old(self).config(),
            final(self).per_second() == old(self).per_second(),
            final(self).inspect_flag() == old(self).inspect_flag(),
            (final(self).rx(), final(self).tx(), r@) == serial_finish(old(self).rx(), old(self).tx()),
    {
        let mut e1: Vec<(i128, SerialEvent)> = Vec::new();
        let mut e2: Vec<(i128, SerialEvent)> = Vec::new();
        self.tx.finalize(&mut e1);
        self.rx.finalize(&mut e2);
        let mut out: Vec<(i128, SerialEvent)> = Vec::new();
        proof {
            assert(Seq::<(i128, SerialEvent)>::empty() + monitor_finalize(old(self).tx).1 =~= monitor_finalize(old(self).tx).1);
            assert(Seq::<(i128, SerialEvent)>::empty() + monitor_finalize(old(self).rx).1 =~= monitor_finalize(old(self).rx).1);
        }
        merge_into(&e1, &e2, &mut out);
        proof {
            assert(Seq::<(i128, SerialEvent)>::empty() + merge(e1@, e2@) =~= merge(e1@, e2@));
        }
        out
    }
}

pub open spec fn events_sorted(e: Seq<(i128, SerialEvent)>) -> bool {
    forall|i: int, j: int| 0 <= i <= j < e.len() ==> e[i].0 <= e[j].0
}

pub open spec fn events_within(e: Seq<(i128, SerialEvent)>, lo: int, hi: int) -> bool {
    forall|i: int| 0 <= i < e.len() ==> lo <= (#[trigger] e[i]).0 <= hi
}

/// The next sampling instant of a busy monitor is no earlier than `lo`.
pub open spec fn ready_after(m: Monitor, lo: int) -> bool {
    match m.state {
        MonitorState::Idle => true,
        MonitorState::Start => m.ts + m.bit + m.bit / 2 >= lo,
        _ => m.ts + m.bit >= lo,
    }
}

proof fn lemma_advance_times(m: Monitor, ts: int, data: bool, lo: int)
    requires
        monitor_wf(m),
        -TIME_LIMIT <= ts <= TIME_LIMIT,
        ready_after(m, lo),
    ensures
        monitor_wf(advance(m, ts, data).0),
        ready_after(advance(m, ts, data).0, ts),
        events_sorted(advance(m, ts, data).1),
        forall|i: int| 0 <= i < advance(m, ts, data).1.len() ==> lo <= (#[trigger] advance(m, ts, data).1[i]).0 < ts,
    decreases ts - m.ts,
{
    if m.ts < ts {
        match bit_step(m, ts, data) {
            None => {},
            Some((m2, evs)) => {
                assert(m2.ts > m.ts && m2.ts <= ts);
                assert(monitor_wf(m2));
                assert(ready_after(m2, m2.ts as int));
                lemma_advance_times(m2, ts, data, m2.ts as int);
                let (m3, more) = advance(m2, ts, data);
                assert(forall|i: int| 0 <= i < evs.len() ==> evs[i].0 == m2.ts && lo <= m2.ts < ts);
                let all = evs + more;
                assert forall|i: int, j: int| 0 <= i <= j < all.len() implies all[i].0 <= all[j].0 by {
                    if i < evs.len() && j >= evs.len() {
                        assert(all[j] == more[j - evs.len()]);
                    }
                }
                assert forall|i: int| 0 <= i < all.len() implies lo <= (#[trigger] all[i]).0 < ts by {
                    if i >= evs.len() {
                        assert(all[i] == more[i - evs.len()]);
                    }
                }
            },
        }
    }
}

proof fn lemma_update_times(m: Monitor, ts: i128, data: bool, fc: bool, lo: int)
    requires
        monitor_wf(m),
        -TIME_LIMIT <= ts <= TIME_LIMIT,
        ready_after(m, lo),
        lo <= ts,
    ensures
        monitor_wf(monitor_update(m, ts, data, fc).0),
        ready_after(monitor_update(m, ts, data, fc).0, ts as int),
        events_sorted(monitor_update(m, ts, data, fc).1),
        events_within(monitor_update(m, ts, data, fc).1, lo, ts as int),
{
    lemma_advance_times(m, ts as int, data, lo);
    lemma_advance_frame(m, ts as int, data);
    let (m2, evs) = advance(m, ts as int, data);
    if m.has_fc && m.last_fc != fc {
        let all = evs.push((ts, fc_event(m.dir, fc)));
        assert forall|i: int, j: int| 0 <= i <= j < all.len() implies all[i].0 <= all[j].0 by {
            if j < evs.len() {
                assert(all[i] == evs[i] && all[j] == evs[j]);
            } else if i < evs.len() {
                assert(all[i] == evs[i]);
            }
        }
        assert forall|i: int| 0 <= i < all.len() implies lo <= (#[trigger] all[i]).0 <= ts by {
            if i < evs.len() {
                assert(all[i] == evs[i]);
            }
        }
    }
}

proof fn lemma_merge_times(a: Seq<(i128, SerialEvent)>, b: Seq<(i128, SerialEvent)>, lo: int, hi: int)
    requires
        events_sorted(a),
        events_sorted(b),
        events_within(a, lo, hi),
        events_within(b, lo, hi),
    ensures
        events_sorted(merge(a, b)),
        events_within(merge(a, b), lo, hi),
        merge(a, b).len() == a.len() + b.len(),
    decreases a.len() + b.len(),
{
    if a.len() > 0 && b.len() > 0 {
        if a[0].0 <= b[0].0 {
            let a2 = a.drop_first();
            assert(events_within(a2, a[0].0 as int, hi));
            assert(events_within(b, a[0].0 as int, hi)) by {
                assert forall|i: int| 0 <= i < b.len() implies a[0].0 <= (#[trigger] b[i]).0 by {
                    assert(b[0].0 <= b[i].0);
                }
            }
            lemma_merge_times(a2, b, a[0].0 as int, hi);
            let m = merge(a2, b);
            let all = seq![a[0]] + m;
            assert forall|i: int, j: int| 0 <= i <= j < all.len() implies all[i].0 <= all[j].0 by {
                if i > 0 {
                    assert(all[i] == m[i - 1] && all[j] == m[j - 1]);
                } else if j > 0 {
                    assert(all[j] == m[j - 1]);
                }
            }
            assert forall|i: int| 0 <= i < all.len() implies lo <= (#[trigger] all[i]).0 <= hi by {
                if i > 0 {
                    assert(all[i] == m[i - 1]);
                }
            }
        } else {
            let b2 = b.drop_first();
            assert(events_within(b2, b[0].0 as int, hi));
            assert(events_within(a, b[0].0 as int, hi)) by {
                assert forall|i: int| 0 <= i < a.len() implies b[0].0 <= (#[trigger] a[i]).0 by {
                    assert(a[0].0 <= a[i].0);
                }
            }
            lemma_merge_times(a, b2, b[0].0 as int, hi);
            let m = merge(a, b2);
            let all = seq![b[0]] + m;
            assert forall|i: int, j: int| 0 <= i <= j < all.len() implies all[i].0 <= all[j].0 by {
                if i > 0 {
                    assert(all[i] == m[i - 1] && all[j] == m[j - 1]);
                } else if j > 0 {
                    assert(all[j] == m[j - 1]);
                }
            }
            assert forall|i: int| 0 <= i < all.len() implies lo <= (#[trigger] all[i]).0 <= hi by {
                if i > 0 {
                    assert(all[i] == m[i - 1]);
                }
            }
        }
    }
}

/// The bounds that keep the decoder's time arithmetic in range.
pub open spec fn serial_config_ok(cfg: SerialConfig) -> bool {
    2 <= cfg.scale <= 0x2_0000_0000
}

proof fn lemma_run_times(cfg: SerialConfig, rx: Monitor, tx: Monitor, s: Seq<Sample>)
    requires
        serial_config_ok(cfg),
        monitor_wf(rx),
        monitor_wf(tx),
        non_decreasing(s),
        s.len() > 0 ==> ready_after(rx, s[0].timestamp * cfg.scale) && ready_after(tx, s[0].timestamp * cfg.scale),
    ensures
        monitor_wf(serial_run(cfg, rx, tx, s).0),
        monitor_wf(serial_run(cfg, rx, tx, s).1),
        events_sorted(serial_run(cfg, rx, tx, s).2),
        s.len() > 0 ==> {
            &&& ready_after(serial_run(cfg, rx, tx, s).0, s.last().timestamp * cfg.scale)
            &&& ready_after(serial_run(cfg, rx, tx, s).1, s.last().timestamp * cfg.scale)
            &&& forall|i: int| 0 <= i < serial_run(cfg, rx, tx, s).2.len()
                ==> (#[trigger] serial_run(cfg, rx, tx, s).2[i]).0 <= s.last().timestamp * cfg.scale
        },
    decreases s.len(),
{
    if s.len() > 0 {
        let p = s.drop_last();
        let smp = s.last();
        assert(non_decreasing(p));
        lemma_run_times(cfg, rx, tx, p);
        let (rx1, tx1, e) = serial_run(cfg, rx, tx, p);
        let lo: int = if p.len() > 0 { p.last().timestamp * cfg.scale } else { smp.timestamp * cfg.scale };
        assert(lo <= smp.timestamp * cfg.scale) by {
            if p.len() > 0 {
                assert(p.last().timestamp <= smp.timestamp);
                assert(p.last().timestamp * cfg.scale <= smp.timestamp * cfg.scale) by (nonlinear_arith)
                    requires
                        p.last().timestamp <= smp.timestamp,
                        cfg.scale >= 0,
                ;
            }
        }
        if p.len() == 0 {
            assert(s[0] == smp);
        }
        assert(-0x8000_0000_0000_0000 * 0x2_0000_0000 <= smp.timestamp * cfg.scale <= 0x8000_0000_0000_0000 * 0x2_0000_0000)
            by (nonlinear_arith)
            requires
                2 <= cfg.scale <= 0x2_0000_0000,
                -0x8000_0000_0000_0000 <= smp.timestamp < 0x8000_0000_0000_0000,
        ;
        let t = (smp.timestamp * cfg.scale) as i128;
        lemma_update_times(rx1, t, smp.level(cfg.rx), fc_level(cfg.rts, smp), lo);
        lemma_update_times(tx1, t, smp.level(cfg.tx), fc_level(cfg.cts, smp), lo);
        let e1 = monitor_update(rx1, t, smp.level(cfg.rx), fc_level(cfg.rts, smp)).1;
        let e2 = monitor_update(tx1, t, smp.level(cfg.tx), fc_level(cfg.cts, smp)).1;
        lemma_merge_times(e1, e2, lo, t as int);
        let more = merge(e1, e2);
        let all = e + more;
        assert forall|i: int, j: int| 0 <= i <= j < all.len() implies all[i].0 <= all[j].0 by {
            if j >= e.len() {
                assert(all[j] == more[j - e.len()]);
                if i >= e.len() {
                    assert(all[i] == more[i - e.len()]);
                } else {
                    assert(all[i] == e[i]);
                }
            } else {
                assert(all[i] == e[i] && all[j] == e[j]);
            }
        }
        assert forall|i: int| 0 <= i < all.len() implies (#[trigger] all[i]).0 <= t by {
            if i >= e.len() {
                assert(all[i] == more[i - e.len()]);
            } else {
                assert(all[i] == e[i]);
            }
        }
    }
}

/// Fed samples in time order, the UART decoder emits its events in time
/// order. This covers what the samples bring; the flush at the end of input
/// may report a byte cut short at the time its start bit was seen, which
/// can lie before events already reported for the other line.
pub proof fn serial_timestamps_ordered(cfg: SerialConfig, rx: Monitor, tx: Monitor, s: Seq<Sample>)
    requires
        serial_config_ok(cfg),
        monitor_wf(rx),
        monitor_wf(tx),
        rx.state == MonitorState::Idle,
        tx.state == MonitorState::Idle,
        non_decreasing(s),
    ensures
        events_sorted(serial_run(cfg, rx, tx, s).2),
{
    lemma_run_times(cfg, rx, tx, s);
}

/// Weight of bit `i` of a byte.
pub open spec fn bit_weight(i: int) -> int {
    if i == 0 {
        1
    } else if i == 1 {
        2
    } else if i == 2 {
        4
    } else if i == 3 {
        8
    } else if i == 4 {
        16
    } else if i == 5 {
        32
    } else if i == 6 {
        64
    } else {
        128
    }
}

/// Bit `i` of byte `b`.
pub open spec fn byte_bit(b: u8, i: int) -> bool {
    (b as int / bit_weight(i)) % 2 == 1
}

/// Line level of sample `i` of the ideal waveform of `bytes`, one sample per
/// bit: for each byte a low start bit, its eight data bits least significant
/// first, a high stop bit; after the last byte the line is idle high.
pub open spec fn wave_level(bytes: Seq<u8>, i: int) -> bool {
    if i >= 10 * bytes.len() {
        true
    } else {
        let k = i % 10;
        if k == 0 {
            false
        } else if k <= 8 {
            byte_bit(bytes[i / 10], k - 1)
        } else {
            true
        }
    }
}

/// The first `n` samples of the ideal waveform of `bytes` through monitor
/// `m`, sample `i` at time `t0 + i * m.bit`, flow control unchanged.
pub open spec fn feed(m: Monitor, bytes: Seq<u8>, t0: int, n: nat) -> (Monitor, Seq<(i128, SerialEvent)>)
    decreases n,
{
    if n == 0 {
        (m, Seq::empty())
    } else {
        let (m1, e) = feed(m, bytes, t0, (n - 1) as nat);
        let (m2, more) = monitor_update(m1, (t0 + (n - 1) * m.bit) as i128, wave_level(bytes, n - 1), m.last_fc);
        (m2, e + more)
    }
}

/// The events the ideal waveform should give: each byte at the instant its
/// stop bit is sampled.
pub open spec fn wave_events(m: Monitor, bytes: Seq<u8>, t0: int, k: int) -> Seq<(i128, SerialEvent)> {
    Seq::new(k as nat, |i: int| ((t0 + 10 * i * m.bit + 9 * m.bit + m.bit / 2) as i128, data_event(m.dir, bytes[i])))
}

/// The shift register after `j` data bits of `b`.
pub open spec fn frame_reg(b: u8, j: int) -> u8
    decreases j,
{
    if j <= 0 {
        0
    } else {
        capture(frame_reg(b, j - 1), byte_bit(b, j - 1))
    }
}

proof fn lemma_frame_reg(b: u8)
    ensures
        frame_reg(b, 8) == b,
{
    let x = b as int;
    assert((x % 1) * 256 == 0) by (nonlinear_arith);
    assert(((x % 1) * 256) / 2 + ((x / 1) % 2) * 128 == (x % 2) * 128) by (nonlinear_arith)
        requires 0 <= x < 256;
    assert(((x % 2) * 128) / 2 + ((x / 2) % 2) * 128 == (x % 4) * 64) by (nonlinear_arith)
        requires 0 <= x < 256;
    assert(((x % 4) * 64) / 2 + ((x / 4) % 2) * 128 == (x % 8) * 32) by (nonlinear_arith)
        requires 0 <= x < 256;
    assert(((x % 8) * 32) / 2 + ((x / 8) % 2) * 128 == (x % 16) * 16) by (nonlinear_arith)
        requires 0 <= x < 256;
    assert(((x % 16) * 16) / 2 + ((x / 16) % 2) * 128 == (x % 32) * 8) by (nonlinear_arith)
        requires 0 <= x < 256;
    assert(((x % 32) * 8) / 2 + ((x / 32) % 2) * 128 == (x % 64) * 4) by (nonlinear_arith)
        requires 0 <= x < 256;
    assert(((x % 64) * 4) / 2 + ((x / 64) % 2) * 128 == (x % 128) * 2) by (nonlinear_arith)
        requires 0 <= x < 256;
    assert(((x % 128) * 2) / 2 + ((x / 128) % 2) * 128 == x) by (nonlinear_arith)
        requires 0 <= x < 256;
    assert(frame_reg(b, 0) == 0);
    assert(frame_reg(b, 1) == (x % 2) * 128);
    assert(frame_reg(b, 2) == (x % 4) * 64);
    assert(frame_reg(b, 3) == (x % 8) * 32);
    assert(frame_reg(b, 4) == (x % 16) * 16);
    assert(frame_reg(b, 5) == (x % 32) * 8);
    assert(frame_reg(b, 6) == (x % 64) * 4);
    assert(frame_reg(b, 7) == (x % 128) * 2);
}

/// Monitor `m` with the running fields replaced.
pub open spec fn at(m: Monitor, state: MonitorState, ts: int, start: int, data: bool) -> Monitor {
    Monitor { state, ts: ts as i128, start: start as i128, data, ..m }
}

proof fn lemma_wave_index(bytes: Seq<u8>, k: int, j: int)
    requires
        0 <= k < bytes.len(),
        0 <= j < 10,
    ensures
        wave_level(bytes, 10 * k + j) == if j == 0 {
            false
        } else if j <= 8 {
            byte_bit(bytes[k], j - 1)
        } else {
            true
        },
{
    assert((10 * k + j) % 10 == j && (10 * k + j) / 10 == k) by (nonlinear_arith)
        requires
            0 <= j < 10,
            0 <= k,
    ;
}

/// One more sample of the waveform: what `advance` gives, with the new
/// line level and no flow-control event.
proof fn lemma_feed_step(
    m: Monitor,
    bytes: Seq<u8>,
    t0: int,
    n: nat,
    cur: Monitor,
    e: Seq<(i128, SerialEvent)>,
    t: int,
    nxt: Monitor,
    evs: Seq<(i128, SerialEvent)>,
)
    requires
        feed(m, bytes, t0, n) == (cur, e),
        t0 + n * m.bit == t,
        -TIME_LIMIT <= t <= TIME_LIMIT,
        cur.last_fc == m.last_fc,
        advance(cur, t, wave_level(bytes, n as int)) == (nxt, evs),
    ensures
        feed(m, bytes, t0, n + 1) == (Monitor { data: wave_level(bytes, n as int), ..nxt }, e + evs),
{
    lemma_advance_frame(cur, t, wave_level(bytes, n as int));
    assert(((n + 1) as nat - 1) as nat == n);
}

/// One frame of the ideal waveform: from the start bit of byte `k` to the
/// start bit of the next byte (or the idle line after the last one), the
/// monitor captures exactly byte `k`.
proof fn lemma_frame(m: Monitor, bytes: Seq<u8>, t0: int, k: int)
    requires
        monitor_wf(m),
        m.parity == Parity::NoParity,
        0 <= k < bytes.len(),
        -TIME_LIMIT <= t0,
        t0 + (10 * bytes.len() + 1) * m.bit <= TIME_LIMIT,
        feed(m, bytes, t0, (10 * k + 1) as nat) == (
            at(m, MonitorState::Start, t0 + 10 * k * m.bit, t0 + 10 * k * m.bit, false),
            wave_events(m, bytes, t0, k),
        ),
    ensures
        feed(m, bytes, t0, (10 * k + 11) as nat) == (
            if k + 1 < bytes.len() {
                at(m, MonitorState::Start, t0 + 10 * (k + 1) * m.bit, t0 + 10 * (k + 1) * m.bit, false)
            } else {
                at(m, MonitorState::Idle, t0 + 10 * (k + 1) * m.bit, t0 + 10 * k * m.bit, true)
            },
            wave_events(m, bytes, t0, k + 1),
        ),
{
    let b = m.bit as int;
    let tt = t0 + 10 * k * b;
    assert(10 * k * b + 10 * b <= 10 * bytes.len() * b) by (nonlinear_arith)
        requires
            k + 1 <= bytes.len(),
            b > 0,
    ;
    assert(0 <= 10 * k * b) by (nonlinear_arith)
        requires
            k >= 0,
            b > 0,
    ;
    assert((10 * bytes.len() + 1) * b == 10 * bytes.len() * b + b) by (nonlinear_arith);
    assert(-TIME_LIMIT <= tt && tt + 10 * b + b <= TIME_LIMIT);
    lemma_frame_head(m, bytes, t0, k, tt);
    lemma_time(t0, k, b, 2);
    lemma_time(t0, k, b, 3);
    lemma_time(t0, k, b, 4);
    lemma_time(t0, k, b, 5);
    lemma_time(t0, k, b, 6);
    lemma_time(t0, k, b, 7);
    lemma_wave_index(bytes, k, 3);
    lemma_wave_index(bytes, k, 4);
    lemma_wave_index(bytes, k, 5);
    lemma_wave_index(bytes, k, 6);
    lemma_wave_index(bytes, k, 7);
    lemma_wave_index(bytes, k, 8);
    lemma_data_bits(m, bytes, t0, k, 2, tt, tt + 2 * b);
    lemma_data_bits(m, bytes, t0, k, 3, tt, tt + 3 * b);
    lemma_data_bits(m, bytes, t0, k, 4, tt, tt + 4 * b);
    lemma_data_bits(m, bytes, t0, k, 5, tt, tt + 5 * b);
    lemma_data_bits(m, bytes, t0, k, 6, tt, tt + 6 * b);
    lemma_data_bits(m, bytes, t0, k, 7, tt, tt + 7 * b);
    lemma_frame_tail(m, bytes, t0, k, tt);
}

/// Samples 1 and 2 of a frame: the start bit is timed, then data bit 0 is
/// captured at one and a half bits.
proof fn lemma_frame_head(m: Monitor, bytes: Seq<u8>, t0: int, k: int, tt: int)
    requires
        monitor_wf(m),
        0 <= k < bytes.len(),
        tt == t0 + 10 * k * m.bit,
        -TIME_LIMIT <= tt,
        tt + 11 * m.bit <= TIME_LIMIT,
        feed(m, bytes, t0, (10 * k + 1) as nat) == (
            at(m, MonitorState::Start, tt, tt, false),
            wave_events(m, bytes, t0, k),
        ),
    ensures
        feed(m, bytes, t0, (10 * k + 3) as nat) == (
            at(m, MonitorState::Data(frame_reg(bytes[k], 1), 1), tt + m.bit + m.bit / 2, tt, byte_bit(bytes[k], 1)),
            wave_events(m, bytes, t0, k),
        ),
{
    let b = m.bit as int;
    let h = b / 2;
    let byte = bytes[k];
    let e0 = wave_events(m, bytes, t0, k);
    let empty = Seq::<(i128, SerialEvent)>::empty();
    lemma_time(t0, k, b, 1);
    lemma_time(t0, k, b, 2);
    lemma_wave_index(bytes, k, 1);
    lemma_wave_index(bytes, k, 2);
    assert(e0 + empty =~= e0);
    let a0 = at(m, MonitorState::Start, tt, tt, false);
    assert(bit_step(a0, tt + b, byte_bit(byte, 0)) is None);
    assert(advance(a0, tt + b, byte_bit(byte, 0)) == (a0, empty));
    lemma_feed_step(m, bytes, t0, (10 * k + 1) as nat, a0, e0, tt + b, a0, empty);
    let a1 = at(m, MonitorState::Start, tt, tt, byte_bit(byte, 0));
    assert(frame_reg(byte, 0) == 0);
    assert(frame_reg(byte, 1) == capture(frame_reg(byte, 0), byte_bit(byte, 0)));
    let a2s = at(m, MonitorState::Data(frame_reg(byte, 1), 1), tt + b + h, tt, byte_bit(byte, 0));
    assert(bit_step(a1, tt + 2 * b, byte_bit(byte, 1)) == Some((a2s, empty)));
    assert(bit_step(a2s, tt + 2 * b, byte_bit(byte, 1)) is None);
    assert(advance(a2s, tt + 2 * b, byte_bit(byte, 1)) == (a2s, empty));
    assert(advance(a1, tt + 2 * b, byte_bit(byte, 1)) == (a2s, empty));
    lemma_feed_step(m, bytes, t0, (10 * k + 2) as nat, a1, e0, tt + 2 * b, a2s, empty);
}

/// Samples 9 and 10 of a frame: data bit 7 completes the byte, then the
/// stop bit is sampled and the byte reported.
proof fn lemma_frame_tail(m: Monitor, bytes: Seq<u8>, t0: int, k: int, tt: int)
    requires
        monitor_wf(m),
        m.parity == Parity::NoParity,
        0 <= k < bytes.len(),
        tt == t0 + 10 * k * m.bit,
        -TIME_LIMIT <= tt,
        tt + 11 * m.bit <= TIME_LIMIT,
        feed(m, bytes, t0, (10 * k + 9) as nat) == (
            at(m, MonitorState::Data(frame_reg(bytes[k], 7), 7), tt + 7 * m.bit + m.bit / 2, tt, byte_bit(bytes[k], 7)),
            wave_events(m, bytes, t0, k),
        ),
    ensures
        feed(m, bytes, t0, (10 * k + 11) as nat) == (
            if k + 1 < bytes.len() {
                at(m, MonitorState::Start, t0 + 10 * (k + 1) * m.bit, t0 + 10 * (k + 1) * m.bit, false)
            } else {
                at(m, MonitorState::Idle, t0 + 10 * (k + 1) * m.bit, t0 + 10 * k * m.bit, true)
            },
            wave_events(m, bytes, t0, k + 1),
        ),
{
    let b = m.bit as int;
    let h = b / 2;
    let byte = bytes[k];
    let e0 = wave_events(m, bytes, t0, k);
    let empty = Seq::<(i128, SerialEvent)>::empty();
    lemma_time(t0, k, b, 9);
    lemma_time(t0, k, b, 10);
    lemma_wave_index(bytes, k, 9);
    assert(e0 + empty =~= e0);
    // sample 9
    let a8 = at(m, MonitorState::Data(frame_reg(byte, 7), 7), tt + 7 * b + h, tt, byte_bit(byte, 7));
    let a9s = at(m, MonitorState::Stop(frame_reg(byte, 8), true), tt + 8 * b + h, tt, byte_bit(byte, 7));
    assert(frame_reg(byte, 8) == capture(frame_reg(byte, 7), byte_bit(byte, 7)));
    assert(bit_step(a8, tt + 9 * b, true) == Some((a9s, empty)));
    assert(bit_step(a9s, tt + 9 * b, true) is None);
    assert(advance(a9s, tt + 9 * b, true) == (a9s, empty));
    assert(advance(a8, tt + 9 * b, true) == (a9s, empty));
    lemma_feed_step(m, bytes, t0, (10 * k + 9) as nat, a8, e0, tt + 9 * b, a9s, empty);
    // sample 10
    let a9 = at(m, MonitorState::Stop(frame_reg(byte, 8), true), tt + 8 * b + h, tt, true);
    lemma_frame_reg(byte);
    let ts_stop = tt + 9 * b + h;
    let ev = seq![(ts_stop as i128, data_event(m.dir, byte))];
    let last = k + 1 < bytes.len();
    if last {
        lemma_wave_index(bytes, k + 1, 0);
        assert(10 * (k + 1) + 0 == 10 * k + 10);
    } else {
        assert(10 * k + 10 >= 10 * bytes.len());
    }
    let lvl = !last;
    assert(wave_level(bytes, 10 * k + 10) == lvl);
    let idle = at(m, MonitorState::Idle, ts_stop, tt, true);
    assert(bit_step(a9, tt + 10 * b, lvl) == Some((idle, ev)));
    let end = if last {
        at(m, MonitorState::Start, tt + 10 * b, tt + 10 * b, true)
    } else {
        at(m, MonitorState::Idle, tt + 10 * b, tt, true)
    };
    assert(bit_step(idle, tt + 10 * b, lvl) == Some((end, empty)));
    assert(advance(end, tt + 10 * b, lvl) == (end, empty));
    assert(advance(idle, tt + 10 * b, lvl) == (end, empty));
    assert(ev + empty =~= ev);
    assert(advance(a9, tt + 10 * b, lvl) == (end, ev));
    lemma_feed_step(m, bytes, t0, (10 * k + 10) as nat, a9, e0, tt + 10 * b, end, ev);
    assert(tt + 10 * b == t0 + 10 * (k + 1) * b) by (nonlinear_arith)
        requires
            tt == t0 + 10 * k * b,
    ;
    assert(e0 + ev =~= wave_events(m, bytes, t0, k + 1)) by {
        assert(10 * k * b + 9 * b + h == ts_stop - t0);
    }
}

proof fn lemma_time(t0: int, k: int, b: int, j: int)
    ensures
        t0 + (10 * k + j) * b == t0 + 10 * k * b + j * b,
{
    assert(t0 + (10 * k + j) * b == t0 + 10 * k * b + j * b) by (nonlinear_arith);
}

/// Sample `j + 1` of a frame (2 <= j <= 7), at time `tj + b`, captures
/// data bit `j - 1`.
proof fn lemma_data_bits(m: Monitor, bytes: Seq<u8>, t0: int, k: int, j: int, tt: int, tj: int)
    requires
        monitor_wf(m),
        m.parity == Parity::NoParity,
        0 <= k < bytes.len(),
        2 <= j <= 7,
        -TIME_LIMIT <= tt <= tj,
        tj + 4 * m.bit <= TIME_LIMIT,
        t0 + (10 * k + j) * m.bit == tj,
        t0 + 10 * k * m.bit == tt,
        wave_level(bytes, 10 * k + j + 1) == byte_bit(bytes[k], j),
        feed(m, bytes, t0, (10 * k + j + 1) as nat) == (
            at(m, MonitorState::Data(frame_reg(bytes[k], j - 1), (j - 1) as u32), tj - m.bit + m.bit / 2, tt, byte_bit(bytes[k], j - 1)),
            wave_events(m, bytes, t0, k),
        ),
    ensures
        feed(m, bytes, t0, (10 * k + j + 2) as nat) == (
            at(m, MonitorState::Data(frame_reg(bytes[k], j), j as u32), tj + m.bit / 2, tt, byte_bit(bytes[k], j)),
            wave_events(m, bytes, t0, k),
        ),
{
    let b = m.bit as int;
    let h = b / 2;
    let byte = bytes[k];
    let e0 = wave_events(m, bytes, t0, k);
    assert(t0 + (10 * k + j + 1) * b == tj + b) by (nonlinear_arith)
        requires
            t0 + (10 * k + j) * b == tj,
    ;
    let cur = at(m, MonitorState::Data(frame_reg(byte, j - 1), (j - 1) as u32), tj - b + h, tt, byte_bit(byte, j - 1));
    let nxt = at(m, MonitorState::Data(frame_reg(byte, j), j as u32), tj + h, tt, byte_bit(byte, j - 1));
    assert(frame_reg(byte, j) == capture(frame_reg(byte, j - 1), byte_bit(byte, j - 1)));
    assert(bit_step(cur, tj + b, byte_bit(byte, j)) == Some((nxt, Seq::<(i128, SerialEvent)>::empty())));
    assert(bit_step(nxt, tj + b, byte_bit(byte, j)) is None);
    assert(advance(nxt, tj + b, byte_bit(byte, j)) == (nxt, Seq::<(i128, SerialEvent)>::empty()));
    assert(advance(cur, tj + b, byte_bit(byte, j)) == (nxt, Seq::<(i128, SerialEvent)>::empty()));
    let res = at(m, MonitorState::Data(frame_reg(byte, j), j as u32), tj + h, tt, byte_bit(byte, j));
    assert(monitor_update(cur, (tj + b) as i128, byte_bit(byte, j), m.last_fc) == (res, Seq::<(i128, SerialEvent)>::empty()));
    assert(e0 + Seq::<(i128, SerialEvent)>::empty() =~= e0);
    let n1 = (10 * k + j + 1) as nat;
    assert(((10 * k + j + 2) as nat - 1) as nat == n1);
    assert(feed(m, bytes, t0, (10 * k + j + 2) as nat) == (res, e0));
}

proof fn lemma_frames(m: Monitor, bytes: Seq<u8>, t0: int, k: int)
    requires
        monitor_wf(m),
        m.state == MonitorState::Idle,
        m.parity == Parity::NoParity,
        m.ts < t0,
        0 <= k < bytes.len(),
        -TIME_LIMIT <= t0,
        t0 + (10 * bytes.len() + 1) * m.bit <= TIME_LIMIT,
    ensures
        feed(m, bytes, t0, (10 * k + 1) as nat) == (
            at(m, MonitorState::Start, t0 + 10 * k * m.bit, t0 + 10 * k * m.bit, false),
            wave_events(m, bytes, t0, k),
        ),
    decreases k,
{
    let b = m.bit as int;
    assert((10 * bytes.len() + 1) * b == 10 * bytes.len() * b + b) by (nonlinear_arith);
    assert(0 <= 10 * bytes.len() * b) by (nonlinear_arith)
        requires
            b > 0,
    ;
    if k == 0 {
        let empty = Seq::<(i128, SerialEvent)>::empty();
        lemma_wave_index(bytes, 0, 0);
        let a0 = at(m, MonitorState::Start, t0, t0, m.data);
        assert(bit_step(m, t0, false) == Some((a0, empty)));
        assert(advance(a0, t0, false) == (a0, empty));
        assert(advance(m, t0, false) == (a0, empty));
        assert(feed(m, bytes, t0, 0) == (m, empty));
        assert(0 * m.bit == 0 && 10 * 0 * m.bit == 0) by (nonlinear_arith);
        lemma_feed_step(m, bytes, t0, 0, m, empty, t0, a0, empty);
        assert(empty + empty =~= empty);
        assert(wave_events(m, bytes, t0, 0) =~= empty);
    } else {
        lemma_frames(m, bytes, t0, k - 1);
        lemma_frame(m, bytes, t0, k - 1);
        assert(10 * (k - 1) + 11 == 10 * k + 1);
    }
}

/// An ideal 8N1 waveform of any byte sequence, sampled once per bit at the
/// monitor's own bit rate, decodes to exactly those bytes, in order, each
/// reported at the instant its stop bit is sampled; nothing else is reported.
pub proof fn uart_round_trip(m: Monitor, bytes: Seq<u8>, t0: int)
    requires
        monitor_wf(m),
        m.state == MonitorState::Idle,
        m.parity == Parity::NoParity,
        m.ts < t0,
        -TIME_LIMIT <= t0,
        t0 + (10 * bytes.len() + 1) * m.bit <= TIME_LIMIT,
    ensures
        feed(m, bytes, t0, (10 * bytes.len() + 1) as nat).1 == wave_events(m, bytes, t0, bytes.len() as int),
        forall|i: int| 0 <= i < bytes.len() ==> (#[trigger] feed(m, bytes, t0, (10 * bytes.len() + 1) as nat).1[i]).1
            == data_event(m.dir, bytes[i]),
{
    let b = m.bit as int;
    let n = bytes.len() as int;
    if n == 0 {
        let empty = Seq::<(i128, SerialEvent)>::empty();
        let a0 = at(m, MonitorState::Idle, t0, m.start as int, m.data);
        assert(0 * m.bit == 0) by (nonlinear_arith);
        assert(bit_step(m, t0, true) == Some((a0, empty)));
        assert(advance(a0, t0, true) == (a0, empty));
        assert(advance(m, t0, true) == (a0, empty));
        assert(feed(m, bytes, t0, 0) == (m, empty));
        assert(t0 + 1 * b <= TIME_LIMIT);
        lemma_feed_step(m, bytes, t0, 0, m, empty, t0, a0, empty);
        assert(empty + empty =~= empty);
        assert(wave_events(m, bytes, t0, 0) =~= empty);
    } else {
        lemma_frames(m, bytes, t0, n - 1);
        lemma_frame(m, bytes, t0, n - 1);
        assert(10 * (n - 1) + 11 == 10 * n + 1);
    }
}

/// Channel byte of a waveform sample: every line high except channel `ch`,
/// which is at level `l`.
pub open spec fn line_byte(ch: u8, l: bool) -> u8 {
    if l {
        0xFFu8
    } else {
        !(1u8 << ch)
    }
}

/// The ideal waveform of `bytes` on channel `ch` as samples, one per bit
/// period of `tpb` ticks from tick `t0`, all other channels high.
pub open spec fn wave_samples(ch: u8, bytes: Seq<u8>, t0: int, tpb: int, n: nat) -> Seq<Sample> {
    Seq::new(n, |i: int| Sample { sample: line_byte(ch, wave_level(bytes, i)), timestamp: (t0 + i * tpb) as i64 })
}

proof fn lemma_line_levels(ch: u8, other: u8, l: bool)
    requires
        ch < 8,
        other < 8,
        other != ch,
    ensures
        (Sample { sample: line_byte(ch, l), timestamp: 0 }).level(ch) == l,
        (Sample { sample: line_byte(ch, l), timestamp: 0 }).level(other),
{
    let b = line_byte(ch, l);
    if l {
        assert((b >> ch) & 1u8 == 1u8 && (b >> other) & 1u8 == 1u8) by (bit_vector)
            requires
                b == 0xFFu8,
                ch < 8u8,
                other < 8u8,
        ;
    } else {
        assert((b >> ch) & 1u8 == 0u8 && (b >> other) & 1u8 == 1u8) by (bit_vector)
            requires
                b == !(1u8 << ch),
                ch < 8u8,
                other < 8u8,
                other != ch,
        ;
    }
}

/// The other line stays idle and silent while only the waveform's line moves.
proof fn lemma_serial_feed(
    cfg: SerialConfig,
    rx: Monitor,
    tx: Monitor,
    bytes: Seq<u8>,
    t0: int,
    tpb: int,
    n: nat,
)
    requires
        serial_config_ok(cfg),
        monitor_wf(rx),
        monitor_wf(tx),
        tx.state == MonitorState::Idle,
        cfg.rts is None,
        cfg.cts is None,
        !rx.last_fc,
        !tx.last_fc,
        cfg.rx < 8,
        cfg.tx < 8,
        cfg.rx != cfg.tx,
        rx.bit == tpb * cfg.scale,
        tpb > 0,
        tx.ts < t0 * cfg.scale,
        i64::MIN <= t0,
        t0 + n * tpb <= i64::MAX,
        -TIME_LIMIT <= t0 * cfg.scale,
        (t0 + n * tpb) * cfg.scale <= TIME_LIMIT,
    ensures
        serial_run(cfg, rx, tx, wave_samples(cfg.rx, bytes, t0, tpb, n)).0 == feed(rx, bytes, t0 * cfg.scale, n).0,
        serial_run(cfg, rx, tx, wave_samples(cfg.rx, bytes, t0, tpb, n)).2 == feed(rx, bytes, t0 * cfg.scale, n).1,
        n > 0 ==> serial_run(cfg, rx, tx, wave_samples(cfg.rx, bytes, t0, tpb, n)).1 == (Monitor {
            ts: ((t0 + (n - 1) * tpb) * cfg.scale) as i128,
            data: true,
            ..tx
        }),
        n == 0 ==> serial_run(cfg, rx, tx, wave_samples(cfg.rx, bytes, t0, tpb, n)).1 == tx,
    decreases n,
{
    let w = wave_samples(cfg.rx, bytes, t0, tpb, n);
    if n > 0 {
        let k = n - 1;
        assert(0 <= k * tpb <= n * tpb) by (nonlinear_arith)
            requires
                0 <= k < n,
                tpb > 0,
        ;
        assert((t0 + k * tpb) * cfg.scale <= (t0 + n * tpb) * cfg.scale) by (nonlinear_arith)
            requires
                k * tpb <= n * tpb,
                cfg.scale > 0,
        ;
        assert(t0 * cfg.scale <= (t0 + k * tpb) * cfg.scale) by (nonlinear_arith)
            requires
                k * tpb >= 0,
                cfg.scale > 0,
        ;
        lemma_serial_feed(cfg, rx, tx, bytes, t0, tpb, k as nat);
        assert(w.drop_last() =~= wave_samples(cfg.rx, bytes, t0, tpb, k as nat));
        let smp = w.last();
        let l = wave_level(bytes, k as int);
        assert(smp == Sample { sample: line_byte(cfg.rx, l), timestamp: (t0 + k * tpb) as i64 });
        lemma_line_levels(cfg.rx, cfg.tx, l);
        assert(smp.level(cfg.rx) == l);
        assert(smp.level(cfg.tx));
        let t = (t0 + k * tpb) * cfg.scale;
        assert(t == t0 * cfg.scale + k * rx.bit) by (nonlinear_arith)
            requires
                rx.bit == tpb * cfg.scale,
                t == (t0 + k * tpb) * cfg.scale,
        ;
        let (rx1, tx1, e) = serial_run(cfg, rx, tx, w.drop_last());
        let empty = Seq::<(i128, SerialEvent)>::empty();
        // the idle line
        let tx2 = Monitor { ts: t as i128, data: true, ..tx };
        if k > 0 {
            assert((t0 + (k - 1) * tpb) * cfg.scale < t) by (nonlinear_arith)
                requires
                    t == (t0 + k * tpb) * cfg.scale,
                    tpb > 0,
                    cfg.scale > 0,
            ;
        }
        if k > 0 {
            assert(t0 * cfg.scale <= (t0 + (k - 1) * tpb) * cfg.scale) by (nonlinear_arith)
                requires
                    k >= 1,
                    tpb > 0,
                    cfg.scale > 0,
            ;
            assert(tx1.ts as int == (t0 + (k - 1) * tpb) * cfg.scale);
        }
        assert(tx1.ts < t);
        assert(tx1.state == MonitorState::Idle && tx1.bit > 0);
        assert(t as i128 as int == t);
        assert(bit_step(tx1, t, true) == Some((Monitor { ts: t as i128, ..tx1 }, empty)));
        assert(advance(Monitor { ts: t as i128, ..tx1 }, t, true) == (Monitor { ts: t as i128, ..tx1 }, empty));
        assert(advance(tx1, t, true) == (Monitor { ts: t as i128, ..tx1 }, empty));
        assert(monitor_update(tx1, t as i128, true, false) == (tx2, empty));
        let e1 = monitor_update(rx1, t as i128, l, false).1;
        assert(merge(e1, empty) == e1);
        assert(feed(rx, bytes, t0 * cfg.scale, n) == (
            monitor_update(rx1, (t0 * cfg.scale + k * rx.bit) as i128, l, false).0,
            e + e1,
        ));
    }
}

/// An ideal 8N1 waveform of any byte sequence on the receive line, sampled
/// once per bit period, with the transmit line idle and no flow-control
/// channels, decodes to exactly those bytes, in order, each reported at the
/// instant its stop bit is sampled; nothing else is reported.
pub proof fn serial_round_trip(
    cfg: SerialConfig,
    rx: Monitor,
    tx: Monitor,
    bytes: Seq<u8>,
    t0: int,
    tpb: int,
)
    requires
        serial_config_ok(cfg),
        monitor_wf(rx),
        monitor_wf(tx),
        rx.state == MonitorState::Idle,
        tx.state == MonitorState::Idle,
        rx.parity == Parity::NoParity,
        cfg.rts is None,
        cfg.cts is None,
        !rx.last_fc,
        !tx.last_fc,
        cfg.rx < 8,
        cfg.tx < 8,
        cfg.rx != cfg.tx,
        tpb > 0,
        rx.bit == tpb * cfg.scale,
        rx.ts < t0 * cfg.scale,
        tx.ts < t0 * cfg.scale,
        i64::MIN <= t0,
        t0 + (10 * bytes.len() + 1) * tpb <= i64::MAX,
        -TIME_LIMIT <= t0 * cfg.scale,
        (t0 + (10 * bytes.len() + 1) * tpb) * cfg.scale <= TIME_LIMIT,
    ensures
        serial_run(cfg, rx, tx, wave_samples(cfg.rx, bytes, t0, tpb, (10 * bytes.len() + 1) as nat)).2
            == wave_events(rx, bytes, t0 * cfg.scale, bytes.len() as int),
{
    let n = (10 * bytes.len() + 1) as nat;
    assert((t0 + n * tpb) * cfg.scale == t0 * cfg.scale + n * rx.bit) by (nonlinear_arith)
        requires
            rx.bit == tpb * cfg.scale,
    ;
    lemma_serial_feed(cfg, rx, tx, bytes, t0, tpb, n);
    uart_round_trip(rx, bytes, t0 * cfg.scale);
}

} // verus!
