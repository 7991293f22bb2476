use vstd::prelude::*;
use crate::sample::{Sample, non_decreasing};

verus! {

/// Idle level of the clock (as a mode component), or the level at which
/// chip select is active.
#[derive(Debug, Copy, Clone, PartialEq, Eq, Structural)]
pub enum Polarity {
    High,
    Low,
}

/// Which clock edge of a bit period samples the data lines.
#[derive(Debug, Copy, Clone, PartialEq, Eq, Structural)]
pub enum Phase {
    FirstEdge,
    SecondEdge,
}

/// What the bus decoder reports.
#[derive(Debug, Copy, Clone, PartialEq, Eq, Structural)]
pub enum SpiEvent {
    /// The chip-select line changed; carries its new level.
    ChipSelect(bool),
    /// Eight bits were shifted in both directions while chip select was active.
    Data { mosi: u8, miso: u8 },
}

/// Configuration of the bus decoder: channel of each line, SPI mode and the
/// active level of chip select.
#[derive(Debug, Copy, Clone, PartialEq, Eq, Structural)]
pub struct SpiBuilder {
    pub cs: u8,
    pub mosi: u8,
    pub miso: u8,
    pub clk: u8,
    pub phase: Phase,
    pub polarity: Polarity,
    pub cs_active_level: Polarity,
    pub inspect: bool,
}

impl SpiBuilder {
    /// Chip select on channel 0, MOSI on 1, MISO on 2, clock on 3, mode 0,
    /// chip select active low, no event echo.
    pub fn new() -> (r: SpiBuilder)
        ensures
            r == (SpiBuilder {
                cs: 0,
                mosi: 1,
                miso: 2,
                clk: 3,
                phase: Phase::FirstEdge,
                polarity: Polarity::High,
                cs_active_level: Polarity::Low,
                inspect: false,
            }),
    {
        SpiBuilder {
            cs: 0,
            mosi: 1,
            miso: 2,
            clk: 3,
            phase: Phase::FirstEdge,
            polarity: Polarity::High,
            cs_active_level: Polarity::Low,
            inspect: false,
        }
    }

    pub fn cs(self, cs: u8) -> (r: SpiBuilder)
        ensures
            r == (SpiBuilder { cs, ..self }),
    {
        SpiBuilder { cs, ..self }
    }

    pub fn clk(self, clk: u8) -> (r: SpiBuilder)
        ensures
            r == (SpiBuilder { clk, ..self }),
    {
        SpiBuilder { clk, ..self }
    }

    pub fn miso(self, miso: u8) -> (r: SpiBuilder)
        ensures
            r == (SpiBuilder { miso, ..self }),
    {
        SpiBuilder { miso, ..self }
    }

    pub fn mosi(self, mosi: u8) -> (r: SpiBuilder)
        ensures
            r == (SpiBuilder { mosi, ..self }),
    {
        SpiBuilder { mosi, ..self }
    }

    pub fn mode(self, phase: Phase, polarity: Polarity) -> (r: SpiBuilder)
        ensures
            r == (SpiBuilder { phase, polarity, ..self }),
    {
        SpiBuilder { phase, polarity, ..self }
    }

    pub fn cs_active_level(self, cs_active_level: Polarity) -> (r: SpiBuilder)
        ensures
            r == (SpiBuilder { cs_active_level, ..self }),
    {
        SpiBuilder { cs_active_level, ..self }
    }

    /// Whether the caller wants the decoded events echoed.
    pub fn inspect(self, inspect: bool) -> (r: SpiBuilder)
        ensures
            r == (SpiBuilder { inspect, ..self }),
    {
        SpiBuilder { inspect, ..self }
    }

    /// A decoder with this configuration; both lines start low, no bit shifted.
    pub fn into_spi(self) -> (r: Spi)
        ensures
            r.wf(),
            r.config() == self,
            r.state() == initial_state(),
    {
        Spi { config: self, state: SpiState { shift_reg_mosi: 0, shift_reg_miso: 0, shift_cnt: 0, clk: false, cs: false } }
    }
}

/// Phase and polarity of SPI mode `n`; numbers past 3 select mode 0.
pub open spec fn spec_mode(n: u8) -> (Phase, Polarity) {
    if n == 1 {
        (Phase::SecondEdge, Polarity::High)
    } else if n == 2 {
        (Phase::FirstEdge, Polarity::Low)
    } else if n == 3 {
        (Phase::SecondEdge, Polarity::Low)
    } else {
        (Phase::FirstEdge, Polarity::High)
    }
}

pub fn mode_from_number(n: u8) -> (r: (Phase, Polarity))
    ensures
        r == spec_mode(n),
{
    if n == 1 {
        (Phase::SecondEdge, Polarity::High)
    } else if n == 2 {
        (Phase::FirstEdge, Polarity::Low)
    } else if n == 3 {
        (Phase::SecondEdge, Polarity::Low)
    } else {
        (Phase::FirstEdge, Polarity::High)
    }
}

/// The running part of the decoder: shift registers, bit count and the last
/// seen levels of chip select and clock.
#[derive(Debug, Copy, Clone, PartialEq, Eq, Structural)]
pub struct SpiState {
    pub shift_reg_mosi: u8,
    pub shift_reg_miso: u8,
    pub shift_cnt: u8,
    pub clk: bool,
    pub cs: bool,
}

pub open spec fn initial_state() -> SpiState {
    SpiState { shift_reg_mosi: 0, shift_reg_miso: 0, shift_cnt: 0, clk: false, cs: false }
}

/// Chip select level that counts as active.
pub open spec fn active_level(cfg: SpiBuilder) -> bool {
    cfg.cs_active_level == Polarity::High
}

/// `r` shifted one place towards the most significant bit with `b` as the
/// new least significant bit.
pub open spec fn shift_in(r: u8, b: bool) -> u8 {
    ((2 * r + if b { 1int } else { 0int }) % 256) as u8
}

fn shift_bit_in(r: u8, b: bool) -> (res: u8)
    ensures
        res == shift_in(r, b),
{
    let bit: u8 = if b { 1 } else { 0 };
    let res = (r % 128) * 2 + bit;
    assert(res as int == (2 * r + bit) % 256) by (nonlinear_arith)
        requires
            res as int == (r % 128) * 2 + bit,
            bit <= 1,
    ;
    res
}

/// Whether `smp` brings a clock edge on which the data lines are sampled
/// while chip select is active: the new clock level XOR phase XOR polarity.
pub open spec fn sampling_edge(cfg: SpiBuilder, st: SpiState, smp: Sample) -> bool {
    let clk = smp.level(cfg.clk);
    &&& clk != st.clk
    &&& smp.level(cfg.cs) == active_level(cfg)
    &&& clk != ((cfg.phase == Phase::SecondEdge) != (cfg.polarity == Polarity::Low))
}

/// One sample through the decoder: the next state, and the events it brings
/// (a chip-select change first, then a completed word).
pub open spec fn step(cfg: SpiBuilder, st: SpiState, smp: Sample) -> (SpiState, Seq<(i64, SpiEvent)>) {
    let ts = smp.timestamp;
    let cs = smp.level(cfg.cs);
    let clk = smp.level(cfg.clk);
    let cs_ev = if cs != st.cs { seq![(ts, SpiEvent::ChipSelect(cs))] } else { Seq::empty() };
    let cnt0 = if cs != st.cs && cs != active_level(cfg) { 0u8 } else { st.shift_cnt };
    if sampling_edge(cfg, st, smp) {
        let mosi = shift_in(st.shift_reg_mosi, smp.level(cfg.mosi));
        let miso = shift_in(st.shift_reg_miso, smp.level(cfg.miso));
        if cnt0 + 1 == 8 {
            (
                SpiState { shift_reg_mosi: mosi, shift_reg_miso: miso, shift_cnt: 0, clk, cs },
                cs_ev.push((ts, SpiEvent::Data { mosi, miso })),
            )
        } else {
            (SpiState { shift_reg_mosi: mosi, shift_reg_miso: miso, shift_cnt: (cnt0 + 1) as u8, clk, cs }, cs_ev)
        }
    } else {
        (SpiState { shift_cnt: cnt0, clk, cs, ..st }, cs_ev)
    }
}

/// A sequence of samples through the decoder: final state and all events.
pub open spec fn run(cfg: SpiBuilder, st: SpiState, s: Seq<Sample>) -> (SpiState, Seq<(i64, SpiEvent)>)
    decreases s.len(),
{
    if s.len() == 0 {
        (st, Seq::empty())
    } else {
        let (mid, evs) = run(cfg, st, s.drop_last());
        let (last, more) = step(cfg, mid, s.last());
        (last, evs + more)
    }
}

/// Turns channel transitions into chip-select changes and eight-bit words.
pub struct Spi {
    config: SpiBuilder,
    state: SpiState,
}

impl Spi {
    pub closed spec fn config(&self) -> SpiBuilder {
        self.config
    }

    pub closed spec fn state(&self) -> SpiState {
        self.state
    }

    pub closed spec fn wf(&self) -> bool {
        self.state.shift_cnt < 8
    }

    /// A decoder configured by `config`; same as `config.into_spi()`.
    pub fn new(config: SpiBuilder) -> (r: Spi)
        ensures
            r.wf(),
            r.config() == config,
            r.state() == initial_state(),
    {
        config.into_spi()
    }

    /// Whether the caller asked for the events to be echoed.
    pub fn inspect(&self) -> (r: bool)
        ensures
            r == self.config().inspect,
    {
        self.config.inspect
    }

    /// Feeds one sample and appends the events it brings to `out`.
    pub fn update(&mut self, smp: Sample, out: &mut Vec<(i64, SpiEvent)>)
        requires
            old(self).wf(),
        ensures
            final(self).wf(),
            final(self).config() == old(self).config(),
            final(self).state() == step(old(self).config(), old(self).state(), smp).0,
            final(out)@ == old(out)@ + step(old(self).config(), old(self).state(), smp).1,
    {
        let cfg = self.config;
        let ts = smp.timestamp;
        let cs = smp.channel(cfg.cs);
        let clk = smp.channel(cfg.clk);
        let active = cfg.cs_active_level == Polarity::High;
        let ghost st = self.state;
        let ghost out0 = out@;
        if cs != self.state.cs {
            self.state.cs = cs;
            out.push((ts, SpiEvent::ChipSelect(cs)));
            if cs != active {
                self.state.shift_cnt = 0;
            }
        }
        if clk != self.state.clk {
            self.state.clk = clk;
            let phase = cfg.phase == Phase::SecondEdge;
            let low = cfg.polarity == Polarity::Low;
            if cs == active && clk != (phase != low) {
                let mosi = shift_bit_in(self.state.shift_reg_mosi, smp.channel(cfg.mosi));
                let miso = shift_bit_in(self.state.shift_reg_miso, smp.channel(cfg.miso));
                self.state.shift_reg_mosi = mosi;
                self.state.shift_reg_miso = miso;
                self.state.shift_cnt = self.state.shift_cnt + 1;
                if self.state.shift_cnt == 8 {
                    self.state.shift_cnt = 0;
                    out.push((ts, SpiEvent::Data { mosi: self.state.shift_reg_mosi, miso: self.state.shift_reg_miso }));
                }
            }
        }
        proof {
            let (st2, evs) = step(cfg, st, smp);
            assert(self.state == st2);
            assert(out@ =~= out0 + evs);
        }
    }

    /// Feeds every sample in order and returns the events they bring.
    pub fn decode(&mut self, samples: &Vec<Sample>) -> (r: Vec<(i64, SpiEvent)>)
        requires
            old(self).wf(),
        ensures
            final(self).wf(),
            final(self).config() == old(self).config(),
            (final(self).state(), r@) == run(old(self).config(), old(self).state(), samples@),
    {
        let mut out: Vec<(i64, SpiEvent)> = Vec::new();
        let mut i: usize = 0;
        while i < samples.len()
            invariant
                self.wf(),
                self.config() == old(self).config(),
                i <= samples.len(),
                (self.state(), out@) == run(old(self).config(), old(self).state(), samples@.take(i as int)),
            decreases samples.len() - i,
        {
            proof {
                let s = samples@.take(i + 1);
                assert(s.drop_last() =~= samples@.take(i as int));
            }
            self.update(samples[i], &mut out);
            i = i + 1;
        }
        proof {
            assert(samples@.take(i as int) =~= samples@);
        }
        out
    }
}

/// Event timestamps never go backwards along the sequence.
pub open spec fn events_ordered(e: Seq<(i64, SpiEvent)>) -> bool {
    forall|i: int, j: int| 0 <= i <= j < e.len() ==> e[i].0 <= e[j].0
}

proof fn lemma_run_ts(cfg: SpiBuilder, st: SpiState, s: Seq<Sample>)
    requires
        non_decreasing(s),
    ensures
        events_ordered(run(cfg, st, s).1),
        s.len() > 0 ==> forall|i: int| 0 <= i < run(cfg, st, s).1.len() ==> run(cfg, st, s).1[i].0 <= s.last().timestamp,
    decreases s.len(),
{
    if s.len() > 0 {
        let p = s.drop_last();
        assert(non_decreasing(p));
        lemma_run_ts(cfg, st, p);
        let (mid, evs) = run(cfg, st, p);
        let more = step(cfg, mid, s.last()).1;
        assert(forall|k: int| 0 <= k < more.len() ==> more[k].0 == s.last().timestamp);
        if p.len() > 0 {
            assert(p.last().timestamp <= s.last().timestamp);
        }
        let all = evs + more;
        assert(all == run(cfg, st, s).1);
        assert forall|i: int, j: int| 0 <= i <= j < all.len() implies all[i].0 <= all[j].0 by {
            if j >= evs.len() && i < evs.len() {
                assert(all[i] == evs[i]);
            }
        }
    }
}

/// Fed samples in time order, the decoder emits events in time order.
pub proof fn spi_timestamps_ordered(cfg: SpiBuilder, st: SpiState, s: Seq<Sample>)
    requires
        non_decreasing(s),
    ensures
        events_ordered(run(cfg, st, s).1),
{
    lemma_run_ts(cfg, st, s);
}

/// Chip-select level after the events `e`, starting from level `init`.
pub open spec fn cs_after(init: bool, e: Seq<(i64, SpiEvent)>) -> bool
    decreases e.len(),
{
    if e.len() == 0 {
        init
    } else {
        match e.last().1 {
            SpiEvent::ChipSelect(b) => b,
            SpiEvent::Data { .. } => cs_after(init, e.drop_last()),
        }
    }
}

proof fn lemma_cs_after_data(init: bool, e: Seq<(i64, SpiEvent)>, d: (i64, SpiEvent))
    requires
        d.1 is Data,
    ensures
        cs_after(init, e.push(d)) == cs_after(init, e),
{
    assert(e.push(d).drop_last() =~= e);
}

/// Between a chip-select change to the inactive level and the next change
/// to the active level no word is emitted: every `Data` event comes while
/// the last reported chip-select level (or the starting level) is active.
pub proof fn spi_no_data_while_inactive(cfg: SpiBuilder, st: SpiState, s: Seq<Sample>)
    ensures
        cs_after(st.cs, run(cfg, st, s).1) == run(cfg, st, s).0.cs,
        forall|i: int| 0 <= i < run(cfg, st, s).1.len() && (#[trigger] run(cfg, st, s).1[i]).1 is Data
            ==> cs_after(st.cs, run(cfg, st, s).1.take(i)) == active_level(cfg),
    decreases s.len(),
{
    if s.len() > 0 {
        let p = s.drop_last();
        spi_no_data_while_inactive(cfg, st, p);
        let (mid, evs) = run(cfg, st, p);
        let smp = s.last();
        let (last, more) = step(cfg, mid, smp);
        let all = evs + more;
        let cs = smp.level(cfg.cs);
        let cs_ev = if cs != mid.cs { seq![(smp.timestamp, SpiEvent::ChipSelect(cs))] } else { Seq::<(i64, SpiEvent)>::empty() };
        assert(cs_after(st.cs, evs + cs_ev) == cs) by {
            if cs != mid.cs {
                assert((evs + cs_ev) == evs.push(cs_ev[0]));
            } else {
                assert(evs + cs_ev =~= evs);
            }
        }
        if more.len() > cs_ev.len() {
            assert(more =~= cs_ev.push(more.last()));
            assert(all =~= (evs + cs_ev).push(more.last()));
            lemma_cs_after_data(st.cs, evs + cs_ev, more.last());
        } else {
            assert(more =~= cs_ev);
        }
        assert(cs_after(st.cs, all) == last.cs);
        assert forall|i: int| 0 <= i < all.len() && (#[trigger] all[i]).1 is Data
            implies cs_after(st.cs, all.take(i)) == active_level(cfg) by {
            if i < evs.len() {
                assert(all.take(i) =~= evs.take(i));
                assert(all[i] == evs[i]);
            } else {
                assert(all.take(i) =~= evs + cs_ev);
            }
        }
    }
}

/// Number of `Data` events in `e`.
pub open spec fn count_data(e: Seq<(i64, SpiEvent)>) -> nat
    decreases e.len(),
{
    if e.len() == 0 {
        0
    } else {
        count_data(e.drop_last()) + if e.last().1 is Data { 1nat } else { 0nat }
    }
}

/// Number of samples of `s` that bring a sampling edge while chip select is active.
pub open spec fn sampling_edges(cfg: SpiBuilder, st: SpiState, s: Seq<Sample>) -> nat
    decreases s.len(),
{
    if s.len() == 0 {
        0
    } else {
        let p = s.drop_last();
        sampling_edges(cfg, st, p) + if sampling_edge(cfg, run(cfg, st, p).0, s.last()) { 1nat } else { 0nat }
    }
}

/// Bits of partial words discarded when chip select went inactive.
pub open spec fn dropped_bits(cfg: SpiBuilder, st: SpiState, s: Seq<Sample>) -> nat
    decreases s.len(),
{
    if s.len() == 0 {
        0
    } else {
        let p = s.drop_last();
        let mid = run(cfg, st, p).0;
        let cs = s.last().level(cfg.cs);
        dropped_bits(cfg, st, p) + if cs != mid.cs && cs != active_level(cfg) { mid.shift_cnt as nat } else { 0nat }
    }
}

proof fn lemma_count_data_concat(a: Seq<(i64, SpiEvent)>, b: Seq<(i64, SpiEvent)>)
    ensures
        count_data(a + b) == count_data(a) + count_data(b),
    decreases b.len(),
{
    if b.len() > 0 {
        lemma_count_data_concat(a, b.drop_last());
        assert((a + b).drop_last() =~= a + b.drop_last());
    } else {
        assert(a + b =~= a);
    }
}

/// Every sampling edge seen while chip select is active lands in exactly one
/// place: a completed word (eight each), the word still being shifted, or a
/// partial word cut off when chip select went inactive. So where no partial
/// word is cut off or left over, eight times the number of words is the
/// number of sampling edges.
pub proof fn spi_bits_accounted(cfg: SpiBuilder, st: SpiState, s: Seq<Sample>)
    requires
        st.shift_cnt < 8,
    ensures
        8 * count_data(run(cfg, st, s).1) + run(cfg, st, s).0.shift_cnt + dropped_bits(cfg, st, s)
            == st.shift_cnt + sampling_edges(cfg, st, s),
        run(cfg, st, s).0.shift_cnt < 8,
        st.shift_cnt == 0 && run(cfg, st, s).0.shift_cnt == 0 && dropped_bits(cfg, st, s) == 0
            ==> 8 * count_data(run(cfg, st, s).1) == sampling_edges(cfg, st, s),
    decreases s.len(),
{
    if s.len() > 0 {
        let p = s.drop_last();
        spi_bits_accounted(cfg, st, p);
        let (mid, evs) = run(cfg, st, p);
        let (last, more) = step(cfg, mid, s.last());
        lemma_count_data_concat(evs, more);
        let cs = s.last().level(cfg.cs);
        let cs_ev = if cs != mid.cs { seq![(s.last().timestamp, SpiEvent::ChipSelect(cs))] } else { Seq::<(i64, SpiEvent)>::empty() };
        assert(count_data(cs_ev) == 0) by {
            if cs != mid.cs {
                assert(cs_ev.drop_last() =~= Seq::<(i64, SpiEvent)>::empty());
                assert(count_data(cs_ev.drop_last()) == 0);
                assert(!(cs_ev.last().1 is Data));
            } else {
                assert(cs_ev.len() == 0);
            }
        }
        if more.len() > cs_ev.len() {
            assert(more =~= cs_ev.push(more.last()));
            assert(more.drop_last() =~= cs_ev);
        } else {
            assert(more =~= cs_ev);
        }
    }
}

} // verus!
