use vstd::prelude::*;
use crate::sample::{Sample, SampleError};
use crate::text::{parse_dec, split, parse_decimal, split_fields, lemma_split_len};

verus! {

/// Unit of a `$timescale` declaration.
#[derive(Debug, Clone, Copy, PartialEq, Eq, Structural)]
pub enum TimeUnit {
    S,
    MS,
    US,
    NS,
    PS,
    FS,
}

/// A scalar value in a value change.
#[derive(Debug, Clone, Copy, PartialEq, Eq, Structural)]
pub enum ScalarValue {
    V0,
    V1,
    X,
    Z,
}

/// The value-change-dump commands the sample source acts on; identifiers,
/// variable types and names are kept as their text.
pub enum VcdCommand {
    Timescale(u32, TimeUnit),
    Timestamp(u64),
    VarDef { var_type: Vec<u8>, id: Vec<u8>, reference: Vec<u8> },
    ChangeScalar { id: Vec<u8>, value: ScalarValue },
    Other,
}

pub enum VcdCommandView {
    Timescale(u32, TimeUnit),
    Timestamp(u64),
    VarDef { var_type: Seq<u8>, id: Seq<u8>, reference: Seq<u8> },
    ChangeScalar { id: Seq<u8>, value: ScalarValue },
    Other,
}

impl View for VcdCommand {
    type V = VcdCommandView;

    open spec fn view(&self) -> VcdCommandView {
        match self {
            VcdCommand::Timescale(n, u) => VcdCommandView::Timescale(*n, *u),
            VcdCommand::Timestamp(t) => VcdCommandView::Timestamp(*t),
            VcdCommand::VarDef { var_type, id, reference } => VcdCommandView::VarDef {
                var_type: var_type@,
                id: id@,
                reference: reference@,
            },
            VcdCommand::ChangeScalar { id, value } => VcdCommandView::ChangeScalar { id: id@, value: *value },
            VcdCommand::Other => VcdCommandView::Other,
        }
    }
}

/// Femtoseconds per second: timestamps of this source count femtoseconds.
pub const FS_PER_SECOND: u64 = 1_000_000_000_000_000;

/// The pre-trigger offset: the first timestamp of a dump lies this many
/// femtoseconds before zero.
pub const PRE_TRIGGER: i64 = 100_000_000_000_000;

pub open spec fn unit_fs(u: TimeUnit) -> u64 {
    match u {
        TimeUnit::S => 1_000_000_000_000_000,
        TimeUnit::MS => 1_000_000_000_000,
        TimeUnit::US => 1_000_000_000,
        TimeUnit::NS => 1_000_000,
        TimeUnit::PS => 1_000,
        TimeUnit::FS => 1,
    }
}

/// Bound on a time in femtoseconds since the start of the dump clock.
pub const TIME_CAP: u128 = 0x4000_0000_0000_0000_0000_0000_0000_0000;

/// The first time seen stays below the cap.
pub open spec fn vcd_wf(s: VcdView) -> bool {
    &&& s.first matches Some(f) ==> f < TIME_CAP
    &&& forall|k: int| 0 <= k < s.vars.len() ==> (#[trigger] s.vars[k]).1 < 8
}

/// The text `wire`.
pub open spec fn wire_text() -> Seq<u8> {
    seq![0x77u8, 0x69u8, 0x72u8, 0x65u8]
}

/// The channel a wire's name gives: its second `_`-separated field.
pub open spec fn name_channel(name: Seq<u8>) -> Option<u8> {
    let f = split(name, 0x5F);
    if f.len() >= 2 && parse_dec(f[1], 7) is Some {
        Some(parse_dec(f[1], 7).unwrap() as u8)
    } else {
        None
    }
}

/// Channel of the first declaration of `id` in `vars`.
pub open spec fn lookup(vars: Seq<(Seq<u8>, u8)>, id: Seq<u8>) -> Option<u8>
    decreases vars.len(),
{
    if vars.len() == 0 {
        None
    } else if vars[0].0 == id {
        Some(vars[0].1)
    } else {
        lookup(vars.drop_first(), id)
    }
}

/// `vars` with `id` now on channel `ch`.
pub open spec fn declare(vars: Seq<(Seq<u8>, u8)>, id: Seq<u8>, ch: u8) -> Seq<(Seq<u8>, u8)>
    decreases vars.len(),
{
    if vars.len() == 0 {
        seq![(id, ch)]
    } else if vars[0].0 == id {
        vars.update(0, (id, ch))
    } else {
        seq![vars[0]] + declare(vars.drop_first(), id, ch)
    }
}

proof fn lemma_declare_at(vars: Seq<(Seq<u8>, u8)>, id: Seq<u8>, ch: u8, i: int)
    requires
        0 <= i < vars.len(),
        vars[i].0 == id,
        forall|k: int| 0 <= k < i ==> vars[k].0 != id,
    ensures
        declare(vars, id, ch) == vars.update(i, (id, ch)),
    decreases i,
{
    if i > 0 {
        lemma_declare_at(vars.drop_first(), id, ch, i - 1);
        assert(seq![vars[0]] + vars.drop_first().update(i - 1, (id, ch)) =~= vars.update(i, (id, ch)));
    }
}

proof fn lemma_declare_new(vars: Seq<(Seq<u8>, u8)>, id: Seq<u8>, ch: u8)
    requires
        forall|k: int| 0 <= k < vars.len() ==> vars[k].0 != id,
    ensures
        declare(vars, id, ch) == vars.push((id, ch)),
    decreases vars.len(),
{
    if vars.len() > 0 {
        lemma_declare_new(vars.drop_first(), id, ch);
        assert(seq![vars[0]] + vars.drop_first().push((id, ch)) =~= vars.push((id, ch)));
    }
}

/// `state` with bit `ch` set to `v`.
pub open spec fn set_bit(state: u8, ch: u8, v: bool) -> u8 {
    if v {
        state | (1u8 << ch)
    } else {
        state & !(1u8 << ch)
    }
}

/// State of the dump reader: femtoseconds per tick, the first time seen,
/// the current timestamp, the declared wires and the channel bitmap.
pub struct VcdView {
    pub factor: u64,
    pub first: Option<u128>,
    pub current: i64,
    pub vars: Seq<(Seq<u8>, u8)>,
    pub state: u8,
    pub stopped: bool,
}

pub open spec fn vcd_fail(s: VcdView, e: SampleError) -> (VcdView, Option<Result<Sample, SampleError>>) {
    (VcdView { stopped: true, ..s }, Some(Err(e)))
}

/// One command through the dump reader: a value change yields a sample at
/// the current time; an error ends the stream.
pub open spec fn vcd_step(s: VcdView, cmd: VcdCommandView) -> (VcdView, Option<Result<Sample, SampleError>>) {
    if s.stopped {
        (s, None)
    } else {
        match cmd {
            VcdCommandView::Timescale(n, u) => if n * unit_fs(u) > u64::MAX {
                vcd_fail(s, SampleError::Overflow)
            } else {
                (VcdView { factor: (n * unit_fs(u)) as u64, ..s }, None)
            },
            VcdCommandView::Timestamp(t) => {
                let abs = t * s.factor;
                let first = match s.first {
                    Some(f) => f as int,
                    None => abs,
                };
                let new = abs - first - PRE_TRIGGER;
                if abs >= TIME_CAP || new < i64::MIN || new > i64::MAX {
                    vcd_fail(s, SampleError::Overflow)
                } else if new < s.current {
                    vcd_fail(s, SampleError::NonMonotonic)
                } else {
                    (VcdView { first: Some(first as u128), current: new as i64, ..s }, None)
                }
            },
            VcdCommandView::ChangeScalar { id, value } => if value == ScalarValue::X || value == ScalarValue::Z {
                vcd_fail(s, SampleError::UnsupportedValue)
            } else {
                match lookup(s.vars, id) {
                    None => vcd_fail(s, SampleError::UnknownVariable),
                    Some(ch) => {
                        let st = set_bit(s.state, ch, value == ScalarValue::V1);
                        (VcdView { state: st, ..s }, Some(Ok(Sample { sample: st, timestamp: s.current })))
                    },
                }
            },
            VcdCommandView::VarDef { var_type, id, reference } => if var_type != wire_text() {
                vcd_fail(s, SampleError::UnsupportedVarType)
            } else {
                match name_channel(reference) {
                    None => vcd_fail(s, SampleError::BadVariableName),
                    Some(ch) => (VcdView { vars: declare(s.vars, id, ch), ..s }, None),
                }
            },
            VcdCommandView::Other => (s, None),
        }
    }
}

/// Time in a dump never goes backwards: no command moves the current time
/// back, and a sample carries the current time.
pub proof fn vcd_time_monotonic(s: VcdView, c: VcdCommandView)
    ensures
        vcd_step(s, c).0.current >= s.current,
        vcd_step(s, c).1 matches Some(Ok(smp)) ==> smp.timestamp == vcd_step(s, c).0.current,
{
}

fn unit_femtos(u: TimeUnit) -> (r: u64)
    ensures
        r == unit_fs(u),
{
    match u {
        TimeUnit::S => 1_000_000_000_000_000,
        TimeUnit::MS => 1_000_000_000_000,
        TimeUnit::US => 1_000_000_000,
        TimeUnit::NS => 1_000_000,
        TimeUnit::PS => 1_000,
        TimeUnit::FS => 1,
    }
}

fn same_bytes(a: &Vec<u8>, b: &Vec<u8>) -> (r: bool)
    ensures
        r == (a@ == b@),
{
    if a.len() != b.len() {
        return false;
    }
    let mut i: usize = 0;
    while i < a.len()
        invariant
            a.len() == b.len(),
            i <= a.len(),
            forall|k: int| 0 <= k < i ==> a@[k] == b@[k],
        decreases a.len() - i,
    {
        if a[i] != b[i] {
            return false;
        }
        i = i + 1;
    }
    assert(a@ =~= b@);
    true
}

fn is_wire(t: &Vec<u8>) -> (r: bool)
    ensures
        r == (t@ == wire_text()),
{
    let w: Vec<u8> = vec![0x77u8, 0x69u8, 0x72u8, 0x65u8];
    assert(w@ =~= wire_text());
    same_bytes(t, &w)
}

fn read_channel(name: &Vec<u8>) -> (r: Option<u8>)
    ensures
        r == name_channel(name@),
{
    let f = split_fields(name, 0, name.len(), 0x5F);
    proof {
        assert(name@.subrange(0, name.len() as int) =~= name@);
    }
    if f.len() < 2 {
        return None;
    }
    proof {
        assert(f@.map_values(|v: Vec<u8>| v@)[1] == f[1]@);
        assert(f[1]@.subrange(0, f[1].len() as int) =~= f[1]@);
    }
    match parse_decimal(&f[1], 0, f[1].len(), 7) {
        Some(v) => Some(v as u8),
        None => None,
    }
}

/// Sample source over value-change-dump commands.
pub struct VcdParser {
    factor: u64,
    first: Option<u128>,
    current: i64,
    vars: Vec<(Vec<u8>, u8)>,
    state: u8,
    stopped: bool,
}

impl View for VcdParser {
    type V = VcdView;

    closed spec fn view(&self) -> VcdView {
        VcdView {
            factor: self.factor,
            first: self.first,
            current: self.current,
            vars: self.vars@.map_values(|e: (Vec<u8>, u8)| (e.0@, e.1)),
            state: self.state,
            stopped: self.stopped,
        }
    }
}

impl VcdParser {
    /// A reader with one second per tick, no wires, all channels low, at
    /// the pre-trigger time.
    pub fn new() -> (r: VcdParser)
        ensures
            vcd_wf(r@),
            r@ == (VcdView {
                factor: FS_PER_SECOND,
                first: None,
                current: (-PRE_TRIGGER) as i64,
                vars: Seq::empty(),
                state: 0,
                stopped: false,
            }),
    {
        let r = VcdParser { factor: FS_PER_SECOND, first: None, current: (-PRE_TRIGGER) as i64, vars: Vec::new(), state: 0, stopped: false };
        assert(r@.vars =~= Seq::<(Seq<u8>, u8)>::empty());
        r
    }

    /// Ticks per second of the timestamps this source hands out.
    pub fn ticks_per_second(&self) -> (r: u64)
        ensures
            r == FS_PER_SECOND,
    {
        FS_PER_SECOND
    }

    fn fail(&mut self, e: SampleError) -> (r: Option<Result<Sample, SampleError>>)
        ensures
            (final(self)@, r) == vcd_fail(old(self)@, e),
    {
        self.stopped = true;
        Some(Err(e))
    }

    fn find(&self, id: &Vec<u8>) -> (r: Option<usize>)
        ensures
            r matches Some(i) ==> {
                &&& i < self.vars.len()
                &&& lookup(self@.vars, id@) == Some(self.vars[i as int].1)
                &&& self@.vars[i as int].0 == id@
                &&& forall|k: int| 0 <= k < i ==> self@.vars[k].0 != id@
            },
            r is None ==> lookup(self@.vars, id@) is None && forall|k: int| 0 <= k < self.vars.len() ==> self@.vars[k].0 != id@,
    {
        let mut i: usize = 0;
        assert(self@.vars.skip(0) =~= self@.vars);
        while i < self.vars.len()
            invariant
                i <= self.vars.len(),
                lookup(self@.vars, id@) == lookup(self@.vars.skip(i as int), id@),
                forall|k: int| 0 <= k < i ==> self@.vars[k].0 != id@,
            decreases self.vars.len() - i,
        {
            let ghost rest = self@.vars.skip(i as int);
            proof {
                assert(rest[0] == (self.vars[i as int].0@, self.vars[i as int].1));
                assert(rest.drop_first() =~= self@.vars.skip(i + 1));
            }
            if same_bytes(&self.vars[i].0, id) {
                return Some(i);
            }
            i = i + 1;
        }
        proof {
            assert(self@.vars.skip(i as int) =~= Seq::<(Seq<u8>, u8)>::empty());
        }
        None
    }

    fn declare(&mut self, id: Vec<u8>, ch: u8)
        requires
            vcd_wf(old(self)@),
            ch < 8,
        ensures
            vcd_wf(final(self)@),
            final(self)@ == (VcdView { vars: declare(old(self)@.vars, id@, ch), ..old(self)@ }),
    {
        let ghost v0 = self@.vars;
        match self.find(&id) {
            Some(i) => {
                proof {
                    lemma_declare_at(v0, id@, ch, i as int);
                }
                self.vars.set(i, (id, ch));
            },
            None => {
                proof {
                    lemma_declare_new(v0, id@, ch);
                }
                self.vars.push((id, ch));
            },
        }
        assert(self@.vars =~= declare(v0, id@, ch));
    }

    /// Feeds one command; returns the sample it yields or the error that
    /// ends the stream. After an error nothing more is read.
    pub fn update(&mut self, cmd: VcdCommand) -> (r: Option<Result<Sample, SampleError>>)
        requires
            vcd_wf(old(self)@),
        ensures
            vcd_wf(final(self)@),
            (final(self)@, r) == vcd_step(old(self)@, cmd@),
    {
        if self.stopped {
            return None;
        }
        match cmd {
            VcdCommand::Timescale(n, u) => {
                let f = unit_femtos(u);
                assert(n as int * f as int <= 0xFFFF_FFFF * 0x1_0000_0000_0000_0000) by (nonlinear_arith)
                    requires
                        n <= 0xFFFF_FFFF,
                        f <= 0xFFFF_FFFF_FFFF_FFFF,
                ;
                if n as u128 * f as u128 > u64::MAX as u128 {
                    self.fail(SampleError::Overflow)
                } else {
                    let ghost v0 = self@.vars;
                    self.factor = n as u64 * f;
                    assert(self@.vars == v0);
                    None
                }
            },
            VcdCommand::Timestamp(t) => {
                assert(t as int * self.factor as int <= 0xFFFF_FFFF_FFFF_FFFF * 0xFFFF_FFFF_FFFF_FFFF) by (nonlinear_arith)
                    requires
                        t <= 0xFFFF_FFFF_FFFF_FFFF,
                        self.factor <= 0xFFFF_FFFF_FFFF_FFFF,
                ;
                let abs: u128 = t as u128 * self.factor as u128;
                if abs >= TIME_CAP {
                    return self.fail(SampleError::Overflow);
                }
                let first: u128 = match self.first {
                    Some(f) => f,
                    None => abs,
                };
                let new: i128 = abs as i128 - first as i128 - PRE_TRIGGER as i128;
                if new < i64::MIN as i128 || new > i64::MAX as i128 {
                    self.fail(SampleError::Overflow)
                } else if new < self.current as i128 {
                    self.fail(SampleError::NonMonotonic)
                } else {
                    self.first = Some(first);
                    self.current = new as i64;
                    None
                }
            },
            VcdCommand::ChangeScalar { id, value } => {
                if value == ScalarValue::X || value == ScalarValue::Z {
                    return self.fail(SampleError::UnsupportedValue);
                }
                match self.find(&id) {
                    None => self.fail(SampleError::UnknownVariable),
                    Some(i) => {
                        let ch = self.vars[i].1;
                        assert(self@.vars[i as int].1 == ch);
                        let st = if value == ScalarValue::V1 {
                            self.state | (1u8 << ch)
                        } else {
                            self.state & !(1u8 << ch)
                        };
                        self.state = st;
                        Some(Ok(Sample { sample: st, timestamp: self.current }))
                    },
                }
            },
            VcdCommand::VarDef { var_type, id, reference } => {
                if !is_wire(&var_type) {
                    return self.fail(SampleError::UnsupportedVarType);
                }
                match read_channel(&reference) {
                    None => self.fail(SampleError::BadVariableName),
                    Some(ch) => {
                        self.declare(id, ch);
                        None
                    },
                }
            },
            VcdCommand::Other => None,
        }
    }
}

} // verus!
