use vstd::prelude::*;
use crate::spi::{SpiEvent, events_ordered};

verus! {

/// Largest payload one variable-length command may carry; one more byte in
/// the same transaction is an error.
pub const MAX_PAYLOAD: usize = 65536;

/// A read (opcode 0x03): address and the bytes the flash sent back.
pub struct Read {
    pub addr: u32,
    pub data: Vec<u8>,
}

impl Read {
    pub fn new() -> (r: Read)
        ensures
            r.addr == 0,
            r.data@ == Seq::<u8>::empty(),
    {
        Read { addr: 0, data: Vec::new() }
    }
}

/// A page program (opcode 0x02): address and the bytes written.
pub struct PageProgram {
    pub addr: u32,
    pub data: Vec<u8>,
}

impl PageProgram {
    pub fn new() -> (r: PageProgram)
        ensures
            r.addr == 0,
            r.data@ == Seq::<u8>::empty(),
    {
        PageProgram { addr: 0, data: Vec::new() }
    }
}

/// A read of the discoverable-parameter table (opcode 0x5A): address and the
/// bytes the flash sent back.
pub struct SFDP {
    pub addr: u32,
    pub data: Vec<u8>,
}

impl SFDP {
    pub fn new() -> (r: SFDP)
        ensures
            r.addr == 0,
            r.data@ == Seq::<u8>::empty(),
    {
        SFDP { addr: 0, data: Vec::new() }
    }
}

#[derive(Debug, Copy, Clone, PartialEq, Eq, Structural)]
pub struct DeviceId {
    pub manufacturer: u8,
    pub device_id: u16,
}

#[derive(Debug, Copy, Clone, PartialEq, Eq, Structural)]
pub struct StatusRegister(pub u8);

/// A decoded SPI-NOR flash command.
pub enum Command {
    Read(Read),
    WriteEnable,
    ResetEnable,
    Reset,
    PageProgram(PageProgram),
    BlockErase(u32),
    BlockErase32(u32),
    SectorErase(u32),
    ReadSFDP(SFDP),
    ReadStatusRegister(StatusRegister),
    ReadDeviceId(DeviceId),
}

/// A flash command with its payload as a sequence.
pub enum CommandView {
    Read { addr: u32, data: Seq<u8> },
    WriteEnable,
    ResetEnable,
    Reset,
    PageProgram { addr: u32, data: Seq<u8> },
    BlockErase(u32),
    BlockErase32(u32),
    SectorErase(u32),
    ReadSFDP { addr: u32, data: Seq<u8> },
    ReadStatusRegister(u8),
    ReadDeviceId { manufacturer: u8, device_id: u16 },
}

impl View for Command {
    type V = CommandView;

    open spec fn view(&self) -> CommandView {
        match self {
            Command::Read(r) => CommandView::Read { addr: r.addr, data: r.data@ },
            Command::WriteEnable => CommandView::WriteEnable,
            Command::ResetEnable => CommandView::ResetEnable,
            Command::Reset => CommandView::Reset,
            Command::PageProgram(p) => CommandView::PageProgram { addr: p.addr, data: p.data@ },
            Command::BlockErase(a) => CommandView::BlockErase(*a),
            Command::BlockErase32(a) => CommandView::BlockErase32(*a),
            Command::SectorErase(a) => CommandView::SectorErase(*a),
            Command::ReadSFDP(s) => CommandView::ReadSFDP { addr: s.addr, data: s.data@ },
            Command::ReadStatusRegister(s) => CommandView::ReadStatusRegister(s.0),
            Command::ReadDeviceId(d) => CommandView::ReadDeviceId { manufacturer: d.manufacturer, device_id: d.device_id },
        }
    }
}

/// Why the flash decoder stopped.
#[derive(Debug, Copy, Clone, PartialEq, Eq, Structural)]
pub enum FlashError {
    /// The first word of a transaction is no opcode of the table.
    UnsupportedCommand { ts: i64, mosi: u8, miso: u8 },
    /// A variable-length command went past `MAX_PAYLOAD` bytes; `ts` is the
    /// command's start.
    TransactionTooLong { ts: i64 },
}

/// A command in progress, with the timestamp of its opcode word.
pub enum PartialView {
    Empty,
    Read(i64, u32, Seq<u8>),
    ReadStatusRegister(i64),
    PageProgram(i64, u32, Seq<u8>),
    BlockErase(i64, u32),
    BlockErase32(i64, u32),
    SectorErase(i64, u32),
    ReadSFDP(i64, u32, Seq<u8>),
    ReadDeviceId(i64, u8, u16),
}

/// State of the flash decoder: whether a transaction is open (chip select
/// active and no error met in it), how many
/// words of the current command were consumed, and the command in progress.
pub struct SpifView {
    pub cs: bool,
    pub idx: u32,
    pub partial: PartialView,
}

/// One item of the decoder's output.
pub type FlashItem = Result<(i64, CommandView), FlashError>;

/// `a` with one more address byte appended, most significant first.
pub open spec fn push_addr(a: u32, b: u8) -> u32 {
    (a * 256 + b) as u32
}

/// What the first word of a transaction starts: a command in progress, or
/// an instant command, or the error for an opcode outside the table.
pub open spec fn opcode_step(ts: i64, mosi: u8, miso: u8) -> (PartialView, Option<FlashItem>) {
    if mosi == 0x02 {
        (PartialView::PageProgram(ts, 0, Seq::empty()), None)
    } else if mosi == 0x03 {
        (PartialView::Read(ts, 0, Seq::empty()), None)
    } else if mosi == 0x05 {
        (PartialView::ReadStatusRegister(ts), None)
    } else if mosi == 0x06 {
        (PartialView::Empty, Some(Ok((ts, CommandView::WriteEnable))))
    } else if mosi == 0x20 {
        (PartialView::SectorErase(ts, 0), None)
    } else if mosi == 0x52 {
        (PartialView::BlockErase32(ts, 0), None)
    } else if mosi == 0x5A {
        (PartialView::ReadSFDP(ts, 0, Seq::empty()), None)
    } else if mosi == 0x66 {
        (PartialView::Empty, Some(Ok((ts, CommandView::ResetEnable))))
    } else if mosi == 0x99 {
        (PartialView::Empty, Some(Ok((ts, CommandView::Reset))))
    } else if mosi == 0x9F {
        (PartialView::ReadDeviceId(ts, 0, 0), None)
    } else if mosi == 0xD8 {
        (PartialView::BlockErase(ts, 0), None)
    } else {
        (PartialView::Empty, Some(Err(FlashError::UnsupportedCommand { ts, mosi, miso })))
    }
}

/// One data word consumed by the command in progress.
pub open spec fn data_step(s: SpifView, mosi: u8, miso: u8) -> (SpifView, Option<FlashItem>) {
    let idx = s.idx;
    match s.partial {
        PartialView::Empty => (s, None),
        PartialView::Read(t, a, d) => if idx < 3 {
            (SpifView { idx: (idx + 1) as u32, partial: PartialView::Read(t, push_addr(a, mosi), d), ..s }, None)
        } else if d.len() >= MAX_PAYLOAD {
            (SpifView { cs: false, partial: PartialView::Empty, ..s }, Some(Err(FlashError::TransactionTooLong { ts: t })))
        } else {
            (SpifView { partial: PartialView::Read(t, a, d.push(miso)), ..s }, None)
        },
        PartialView::PageProgram(t, a, d) => if idx < 3 {
            (SpifView { idx: (idx + 1) as u32, partial: PartialView::PageProgram(t, push_addr(a, mosi), d), ..s }, None)
        } else if d.len() >= MAX_PAYLOAD {
            (SpifView { cs: false, partial: PartialView::Empty, ..s }, Some(Err(FlashError::TransactionTooLong { ts: t })))
        } else {
            (SpifView { partial: PartialView::PageProgram(t, a, d.push(mosi)), ..s }, None)
        },
        PartialView::ReadSFDP(t, a, d) => if idx < 3 {
            (SpifView { idx: (idx + 1) as u32, partial: PartialView::ReadSFDP(t, push_addr(a, mosi), d), ..s }, None)
        } else if d.len() >= MAX_PAYLOAD {
            (SpifView { cs: false, partial: PartialView::Empty, ..s }, Some(Err(FlashError::TransactionTooLong { ts: t })))
        } else {
            (SpifView { partial: PartialView::ReadSFDP(t, a, d.push(miso)), ..s }, None)
        },
        PartialView::ReadStatusRegister(t) =>
            (SpifView { partial: PartialView::Empty, ..s }, Some(Ok((t, CommandView::ReadStatusRegister(miso))))),
        PartialView::SectorErase(t, a) => if idx < 2 {
            (SpifView { idx: (idx + 1) as u32, partial: PartialView::SectorErase(t, push_addr(a, mosi)), ..s }, None)
        } else {
            (SpifView { partial: PartialView::Empty, ..s }, Some(Ok((t, CommandView::SectorErase(push_addr(a, mosi))))))
        },
        PartialView::BlockErase32(t, a) => if idx < 2 {
            (SpifView { idx: (idx + 1) as u32, partial: PartialView::BlockErase32(t, push_addr(a, mosi)), ..s }, None)
        } else {
            (SpifView { partial: PartialView::Empty, ..s }, Some(Ok((t, CommandView::BlockErase32(push_addr(a, mosi))))))
        },
        PartialView::BlockErase(t, a) => if idx < 2 {
            (SpifView { idx: (idx + 1) as u32, partial: PartialView::BlockErase(t, push_addr(a, mosi)), ..s }, None)
        } else {
            (SpifView { partial: PartialView::Empty, ..s }, Some(Ok((t, CommandView::BlockErase(push_addr(a, mosi))))))
        },
        PartialView::ReadDeviceId(t, m, d) => if idx == 0 {
            (SpifView { idx: 1, partial: PartialView::ReadDeviceId(t, miso, d), ..s }, None)
        } else if idx == 1 {
            (SpifView { idx: 2, partial: PartialView::ReadDeviceId(t, m, (miso * 256) as u16), ..s }, None)
        } else {
            (
                SpifView { partial: PartialView::Empty, ..s },
                Some(Ok((t, CommandView::ReadDeviceId { manufacturer: m, device_id: (d + miso) as u16 }))),
            )
        },
    }
}

/// One SPI event through the flash decoder. A chip-select change to
/// `active` starts a transaction; a change away from it ends one and
/// releases a variable-length command in progress.
pub open spec fn flash_step(active: bool, s: SpifView, ts: i64, ev: SpiEvent) -> (SpifView, Option<FlashItem>) {
    match ev {
        SpiEvent::ChipSelect(level) => if level == active {
            (SpifView { cs: true, idx: 0, partial: PartialView::Empty }, None)
        } else {
            let out = match s.partial {
                PartialView::Read(t, a, d) => Some(Ok((t, CommandView::Read { addr: a, data: d }))),
                PartialView::PageProgram(t, a, d) => Some(Ok((t, CommandView::PageProgram { addr: a, data: d }))),
                PartialView::ReadSFDP(t, a, d) => Some(Ok((t, CommandView::ReadSFDP { addr: a, data: d }))),
                _ => None,
            };
            (SpifView { cs: false, partial: PartialView::Empty, ..s }, out)
        },
        SpiEvent::Data { mosi, miso } => if !s.cs {
            (s, None)
        } else if s.partial is Empty {
            let (p, out) = opcode_step(ts, mosi, miso);
            (SpifView { cs: !(out matches Some(Err(_))), idx: 0, partial: p, ..s }, out)
        } else {
            data_step(s, mosi, miso)
        },
    }
}

/// A sequence of SPI events through the flash decoder. An error item does
/// not end the run: the rest of its transaction is skipped, and decoding
/// resumes at the next chip-select assertion.
pub open spec fn flash_run(active: bool, s: SpifView, evs: Seq<(i64, SpiEvent)>) -> (SpifView, Seq<FlashItem>)
    decreases evs.len(),
{
    if evs.len() == 0 {
        (s, Seq::empty())
    } else {
        let (mid, out) = flash_run(active, s, evs.drop_last());
        let (next, item) = flash_step(active, mid, evs.last().0, evs.last().1);
        match item {
            Some(i) => (next, out.push(i)),
            None => (next, out),
        }
    }
}

/// The output item of a command as seen through its view.
pub open spec fn item_view(x: Result<(i64, Command), FlashError>) -> FlashItem {
    match x {
        Ok((t, c)) => Ok((t, c@)),
        Err(e) => Err(e),
    }
}

pub open spec fn opt_item_view(x: Option<Result<(i64, Command), FlashError>>) -> Option<FlashItem> {
    match x {
        Some(i) => Some(item_view(i)),
        None => None,
    }
}

pub open spec fn items_view(s: Seq<Result<(i64, Command), FlashError>>) -> Seq<FlashItem> {
    s.map_values(|x: Result<(i64, Command), FlashError>| item_view(x))
}

/// Exclusive bound of an address after `idx` of its bytes.
pub open spec fn addr_bound(idx: u32) -> int {
    if idx == 0 {
        1
    } else if idx == 1 {
        0x100
    } else if idx == 2 {
        0x1_0000
    } else {
        0x100_0000
    }
}

/// The bounds that keep address and identifier arithmetic in range.
pub open spec fn partial_ok(idx: u32, p: PartialView) -> bool {
    match p {
        PartialView::Empty => true,
        PartialView::ReadStatusRegister(_) => true,
        PartialView::Read(_, a, d) => idx <= 3 && a < addr_bound(idx) && d.len() <= MAX_PAYLOAD,
        PartialView::PageProgram(_, a, d) => idx <= 3 && a < addr_bound(idx) && d.len() <= MAX_PAYLOAD,
        PartialView::ReadSFDP(_, a, d) => idx <= 3 && a < addr_bound(idx) && d.len() <= MAX_PAYLOAD,
        PartialView::SectorErase(_, a) => idx <= 2 && a < addr_bound(idx),
        PartialView::BlockErase32(_, a) => idx <= 2 && a < addr_bound(idx),
        PartialView::BlockErase(_, a) => idx <= 2 && a < addr_bound(idx),
        PartialView::ReadDeviceId(_, _, d) => idx <= 2 && d % 256 == 0 && d <= 0xFF00,
    }
}

/// A command in progress, as the decoder holds it.
pub enum PartialCommand {
    Empty,
    Read(i64, Read),
    ReadStatusRegister(i64),
    PageProgram(i64, PageProgram),
    BlockErase(i64, u32),
    BlockErase32(i64, u32),
    SectorErase(i64, u32),
    ReadSFDP(i64, SFDP),
    ReadDeviceId(i64, DeviceId),
}

impl View for PartialCommand {
    type V = PartialView;

    open spec fn view(&self) -> PartialView {
        match self {
            PartialCommand::Empty => PartialView::Empty,
            PartialCommand::Read(t, r) => PartialView::Read(*t, r.addr, r.data@),
            PartialCommand::ReadStatusRegister(t) => PartialView::ReadStatusRegister(*t),
            PartialCommand::PageProgram(t, p) => PartialView::PageProgram(*t, p.addr, p.data@),
            PartialCommand::BlockErase(t, a) => PartialView::BlockErase(*t, *a),
            PartialCommand::BlockErase32(t, a) => PartialView::BlockErase32(*t, *a),
            PartialCommand::SectorErase(t, a) => PartialView::SectorErase(*t, *a),
            PartialCommand::ReadSFDP(t, s) => PartialView::ReadSFDP(*t, s.addr, s.data@),
            PartialCommand::ReadDeviceId(t, d) => PartialView::ReadDeviceId(*t, d.manufacturer, d.device_id),
        }
    }
}

/// The first word of a transaction: the command it starts or completes.
fn new_cmd(ts: i64, mosi: u8, miso: u8) -> (r: (PartialCommand, Option<Result<(i64, Command), FlashError>>))
    ensures
        (r.0@, opt_item_view(r.1)) == opcode_step(ts, mosi, miso),
        partial_ok(0, r.0@),
{
    match mosi {
        0x02 => (PartialCommand::PageProgram(ts, PageProgram::new()), None),
        0x03 => (PartialCommand::Read(ts, Read::new()), None),
        0x05 => (PartialCommand::ReadStatusRegister(ts), None),
        0x06 => (PartialCommand::Empty, Some(Ok((ts, Command::WriteEnable)))),
        0x20 => (PartialCommand::SectorErase(ts, 0), None),
        0x52 => (PartialCommand::BlockErase32(ts, 0), None),
        0x5A => (PartialCommand::ReadSFDP(ts, SFDP::new()), None),
        0x66 => (PartialCommand::Empty, Some(Ok((ts, Command::ResetEnable)))),
        0x99 => (PartialCommand::Empty, Some(Ok((ts, Command::Reset)))),
        0x9F => (PartialCommand::ReadDeviceId(ts, DeviceId { manufacturer: 0, device_id: 0 }), None),
        0xD8 => (PartialCommand::BlockErase(ts, 0), None),
        _ => (PartialCommand::Empty, Some(Err(FlashError::UnsupportedCommand { ts, mosi, miso }))),
    }
}

/// Disassembles SPI-NOR flash commands from SPI events; each window in which
/// chip select is active is one transaction.
pub struct Spif {
    active: bool,
    inspect: bool,
    cs: bool,
    idx: u32,
    partial: PartialCommand,
}

impl View for Spif {
    type V = SpifView;

    closed spec fn view(&self) -> SpifView {
        SpifView { cs: self.cs, idx: self.idx, partial: self.partial@ }
    }
}

impl Spif {
    /// The chip-select level that starts a transaction.
    pub closed spec fn active(&self) -> bool {
        self.active
    }

    pub closed spec fn inspect_flag(&self) -> bool {
        self.inspect
    }

    pub closed spec fn wf(&self) -> bool {
        partial_ok(self.idx, self.partial@)
    }

    /// A decoder outside any transaction. A `ChipSelect(cs_active_level)`
    /// event opens a transaction; `inspect` asks for the commands to be echoed.
    pub fn new(cs_active_level: bool, inspect: bool) -> (r: Spif)
        ensures
            r.wf(),
            r.active() == cs_active_level,
            r.inspect_flag() == inspect,
            r@ == (SpifView { cs: false, idx: 0, partial: PartialView::Empty }),
    {
        Spif { active: cs_active_level, inspect, cs: false, idx: 0, partial: PartialCommand::Empty }
    }

    pub fn inspect(&self) -> (r: bool)
        ensures
            r == self.inspect_flag(),
    {
        self.inspect
    }

    /// A data word for the command in progress.
    fn consume(&mut self, mosi: u8, miso: u8) -> (r: Option<Result<(i64, Command), FlashError>>)
        requires
            old(self).wf(),
            old(self).cs,
            !(old(self).partial is Empty),
        ensures
            final(self).wf(),
            final(self).active == old(self).active,
            final(self).inspect == old(self).inspect,
            (final(self)@, opt_item_view(r)) == data_step(old(self)@, mosi, miso),
    {
        let mut partial = PartialCommand::Empty;
        std::mem::swap(&mut partial, &mut self.partial);
        match partial {
            PartialCommand::Empty => None,
            PartialCommand::Read(t, mut r) => {
                if self.idx < 3 {
                    r.addr = r.addr * 256 + mosi as u32;
                    self.idx = self.idx + 1;
                    self.partial = PartialCommand::Read(t, r);
                    None
                } else if r.data.len() >= MAX_PAYLOAD {
                    self.cs = false;
                    Some(Err(FlashError::TransactionTooLong { ts: t }))
                } else {
                    r.data.push(miso);
                    self.partial = PartialCommand::Read(t, r);
                    None
                }
            },
            PartialCommand::PageProgram(t, mut r) => {
                if self.idx < 3 {
                    r.addr = r.addr * 256 + mosi as u32;
                    self.idx = self.idx + 1;
                    self.partial = PartialCommand::PageProgram(t, r);
                    None
                } else if r.data.len() >= MAX_PAYLOAD {
                    self.cs = false;
                    Some(Err(FlashError::TransactionTooLong { ts: t }))
                } else {
                    r.data.push(mosi);
                    self.partial = PartialCommand::PageProgram(t, r);
                    None
                }
            },
            PartialCommand::ReadSFDP(t, mut r) => {
                if self.idx < 3 {
                    r.addr = r.addr * 256 + mosi as u32;
                    self.idx = self.idx + 1;
                    self.partial = PartialCommand::ReadSFDP(t, r);
                    None
                } else if r.data.len() >= MAX_PAYLOAD {
                    self.cs = false;
                    Some(Err(FlashError::TransactionTooLong { ts: t }))
                } else {
                    r.data.push(miso);
                    self.partial = PartialCommand::ReadSFDP(t, r);
                    None
                }
            },
            PartialCommand::ReadStatusRegister(t) => Some(Ok((t, Command::ReadStatusRegister(StatusRegister(miso))))),
            PartialCommand::SectorErase(t, a) => {
                let a2 = a * 256 + mosi as u32;
                if self.idx < 2 {
                    self.idx = self.idx + 1;
                    self.partial = PartialCommand::SectorErase(t, a2);
                    None
                } else {
                    Some(Ok((t, Command::SectorErase(a2))))
                }
            },
            PartialCommand::BlockErase32(t, a) => {
                let a2 = a * 256 + mosi as u32;
                if self.idx < 2 {
                    self.idx = self.idx + 1;
                    self.partial = PartialCommand::BlockErase32(t, a2);
                    None
                } else {
                    Some(Ok((t, Command::BlockErase32(a2))))
                }
            },
            PartialCommand::BlockErase(t, a) => {
                let a2 = a * 256 + mosi as u32;
                if self.idx < 2 {
                    self.idx = self.idx + 1;
                    self.partial = PartialCommand::BlockErase(t, a2);
                    None
                } else {
                    Some(Ok((t, Command::BlockErase(a2))))
                }
            },
            PartialCommand::ReadDeviceId(t, d) => {
                if self.idx == 0 {
                    self.idx = 1;
                    self.partial = PartialCommand::ReadDeviceId(t, DeviceId { manufacturer: miso, ..d });
                    None
                } else if self.idx == 1 {
                    self.idx = 2;
                    self.partial = PartialCommand::ReadDeviceId(t, DeviceId { device_id: miso as u16 * 256, ..d });
                    None
                } else {
                    let id = DeviceId { device_id: d.device_id + miso as u16, ..d };
                    Some(Ok((t, Command::ReadDeviceId(id))))
                }
            },
        }
    }

    /// Feeds one SPI event; returns the command or error it completes.
    pub fn update(&mut self, ts: i64, ev: SpiEvent) -> (r: Option<Result<(i64, Command), FlashError>>)
        requires
            old(self).wf(),
        ensures
            final(self).wf(),
            final(self).active() == old(self).active(),
            final(self).inspect_flag() == old(self).inspect_flag(),
            (final(self)@, opt_item_view(r)) == flash_step(old(self).active(), old(self)@, ts, ev),
    {
        match ev {
            SpiEvent::ChipSelect(level) => {
                if level == self.active {
                    self.cs = true;
                    self.idx = 0;
                    self.partial = PartialCommand::Empty;
                    None
                } else {
                    self.cs = false;
                    let mut partial = PartialCommand::Empty;
                    std::mem::swap(&mut partial, &mut self.partial);
                    match partial {
                        PartialCommand::Read(t, r) => Some(Ok((t, Command::Read(r)))),
                        PartialCommand::PageProgram(t, p) => Some(Ok((t, Command::PageProgram(p)))),
                        PartialCommand::ReadSFDP(t, s) => Some(Ok((t, Command::ReadSFDP(s)))),
                        _ => None,
                    }
                }
            },
            SpiEvent::Data { mosi, miso } => {
                if !self.cs {
                    None
                } else if let PartialCommand::Empty = self.partial {
                    let (p, out) = new_cmd(ts, mosi, miso);
                    self.idx = 0;
                    self.partial = p;
                    if let Some(Err(_)) = out {
                        self.cs = false;
                    }
                    out
                } else {
                    self.consume(mosi, miso)
                }
            },
        }
    }

    /// Feeds the events in order and returns the commands and errors they
    /// bring. After an error the rest of that transaction is skipped and
    /// decoding resumes at the next chip-select assertion.
    pub fn decode(&mut self, events: &Vec<(i64, SpiEvent)>) -> (r: Vec<Result<(i64, Command), FlashError>>)
        requires
            old(self).wf(),
        ensures
            final(self).wf(),
            final(self).active() == old(self).active(),
            final(self).inspect_flag() == old(self).inspect_flag(),
            (final(self)@, items_view(r@)) == flash_run(old(self).active(), old(self)@, events@),
    {
        let mut out: Vec<Result<(i64, Command), FlashError>> = Vec::new();
        let mut i: usize = 0;
        while i < events.len()
            invariant
                self.wf(),
                self.active() == old(self).active(),
                self.inspect_flag() == old(self).inspect_flag(),
                i <= events.len(),
                (self@, items_view(out@)) == flash_run(old(self).active(), old(self)@, events@.take(i as int)),
            decreases events.len() - i,
        {
            proof {
                assert(events@.take(i + 1).drop_last() =~= events@.take(i as int));
            }
            let (ts, ev) = events[i];
            match self.update(ts, ev) {
                Some(item) => {
                    let ghost before = out@;
                    out.push(item);
                    proof {
                        assert(items_view(out@) =~= items_view(before).push(item_view(item)));
                    }
                },
                None => {},
            }
            i = i + 1;
        }
        proof {
            assert(events@.take(i as int) =~= events@);
        }
        out
    }
}

/// Whether `op` opens a command whose payload runs until chip select goes
/// inactive.
pub open spec fn variable_length(op: u8) -> bool {
    op == 0x02 || op == 0x03 || op == 0x5A
}

/// The payload byte a data word gives to the command with opcode `op`:
/// MOSI for a page program, MISO for the reads.
pub open spec fn payload_byte(op: u8, e: SpiEvent) -> u8 {
    match e {
        SpiEvent::Data { mosi, miso } => if op == 0x02 { mosi } else { miso },
        SpiEvent::ChipSelect(_) => 0,
    }
}

pub open spec fn payload_of(op: u8, ws: Seq<(i64, SpiEvent)>) -> Seq<u8> {
    ws.map_values(|w: (i64, SpiEvent)| payload_byte(op, w.1))
}

/// Address made of the MOSI bytes of the words, most significant first.
pub open spec fn addr_of(ws: Seq<(i64, SpiEvent)>) -> u32
    decreases ws.len(),
{
    if ws.len() == 0 {
        0
    } else {
        match ws.last().1 {
            SpiEvent::Data { mosi, .. } => push_addr(addr_of(ws.drop_last()), mosi),
            SpiEvent::ChipSelect(_) => push_addr(addr_of(ws.drop_last()), 0),
        }
    }
}

/// The command in progress for variable-length opcode `op`.
pub open spec fn variable_partial(op: u8, t: i64, a: u32, d: Seq<u8>) -> PartialView {
    if op == 0x02 {
        PartialView::PageProgram(t, a, d)
    } else if op == 0x03 {
        PartialView::Read(t, a, d)
    } else {
        PartialView::ReadSFDP(t, a, d)
    }
}

/// The payload of a command, for those that carry one.
pub open spec fn payload(c: CommandView) -> Option<Seq<u8>> {
    match c {
        CommandView::Read { data, .. } => Some(data),
        CommandView::PageProgram { data, .. } => Some(data),
        CommandView::ReadSFDP { data, .. } => Some(data),
        _ => None,
    }
}

proof fn lemma_variable_prefix(
    active: bool,
    s: SpifView,
    head: Seq<(i64, SpiEvent)>,
    t1: i64,
    op: u8,
    words: Seq<(i64, SpiEvent)>,
    n: int,
)
    requires
        variable_length(op),
        0 <= n <= words.len(),
        n - 3 <= MAX_PAYLOAD,
        forall|k: int| 0 <= k < words.len() ==> (#[trigger] words[k]).1 is Data,
        flash_run(active, s, head).1.len() == 0,
        flash_run(active, s, head).0 == (SpifView { cs: true, idx: 0, partial: variable_partial(op, t1, 0, Seq::empty()) }),
    ensures
        flash_run(active, s, head + words.take(n)).1.len() == 0,
        flash_run(active, s, head + words.take(n)).0 == (if n <= 3 {
            SpifView { cs: true, idx: n as u32, partial: variable_partial(op, t1, addr_of(words.take(n)), Seq::empty()) }
        } else {
            SpifView {
                cs: true,
                idx: 3,
                partial: variable_partial(op, t1, addr_of(words.take(3)), payload_of(op, words.subrange(3, n))),
            }
        }),
    decreases n,
{
    if n == 0 {
        assert(head + words.take(0) =~= head);
        assert(words.take(0) =~= Seq::<(i64, SpiEvent)>::empty());
    } else {
        lemma_variable_prefix(active, s, head, t1, op, words, n - 1);
        let evs = head + words.take(n);
        assert(evs.drop_last() =~= head + words.take(n - 1));
        assert(evs.last() == words[n - 1]);
        assert(words.take(n).drop_last() =~= words.take(n - 1));
        assert(words.take(n).last() == words[n - 1]);
        assert(words[n - 1].1 is Data);
        let prev = flash_run(active, s, head + words.take(n - 1));
        let w = words[n - 1].1;
        let next = flash_step(active, prev.0, words[n - 1].0, w);
        assert(next.1 is None);
        assert(flash_run(active, s, evs) == (next.0, prev.1));
        if n <= 3 {
            assert(addr_of(words.take(n)) == push_addr(addr_of(words.take(n - 1)), w->mosi));
            assert(prev.0.idx == n - 1);
            assert(next.0.idx == n);
            assert(next.0.partial == variable_partial(op, t1, addr_of(words.take(n)), Seq::empty()));
        } else {
            assert(words.subrange(3, 3) =~= Seq::<(i64, SpiEvent)>::empty());
            assert(payload_of(op, words.subrange(3, 3)) =~= Seq::<u8>::empty());
            assert(payload_of(op, words.subrange(3, n - 1)).len() == n - 4);
            assert(prev.0.idx == 3);
            let a = addr_of(words.take(3));
            let d = payload_of(op, words.subrange(3, n - 1));
            if n == 4 {
                assert(words.take(n - 1) =~= words.take(3));
            }
            assert(prev.0.partial == variable_partial(op, t1, a, d));
            assert(payload_of(op, words.subrange(3, n)) == d.push(payload_byte(op, w)));
            if op == 0x02 {
                assert(next.0.partial == PartialView::PageProgram(t1, a, d.push(w->mosi)));
            } else if op == 0x03 {
                assert(next.0.partial == PartialView::Read(t1, a, d.push(w->miso)));
            } else {
                assert(next.0.partial == PartialView::ReadSFDP(t1, a, d.push(w->miso)));
            }
            assert(next.0.idx == 3);
            assert(next.0.partial == variable_partial(op, t1, addr_of(words.take(3)), payload_of(op, words.subrange(3, n))));
        }
        if n > 3 {
            assert(words.subrange(3, n) =~= words.subrange(3, n - 1).push(words[n - 1]));
            assert(payload_of(op, words.subrange(3, n)) =~= payload_of(op, words.subrange(3, n - 1)).push(
                payload_byte(op, words[n - 1].1),
            ));
        } else if n == 3 {
            assert(words.subrange(3, 3) =~= Seq::<(i64, SpiEvent)>::empty());
            assert(payload_of(op, words.subrange(3, 3)) =~= Seq::<u8>::empty());
        }
    }
}

/// A transaction of a variable-length command (read, page program, SFDP
/// read) yields one command, stamped with its opcode word, whose payload is
/// one byte for each data word after the opcode and the three address words
/// (MOSI for a page program, MISO for the reads), in order.
pub proof fn flash_payload_length(
    active: bool,
    s: SpifView,
    t0: i64,
    t1: i64,
    op: u8,
    miso: u8,
    words: Seq<(i64, SpiEvent)>,
    t2: i64,
)
    requires
        variable_length(op),
        words.len() >= 3,
        words.len() - 3 <= MAX_PAYLOAD,
        forall|k: int| 0 <= k < words.len() ==> (#[trigger] words[k]).1 is Data,
    ensures
        ({
            let evs = seq![(t0, SpiEvent::ChipSelect(active)), (t1, SpiEvent::Data { mosi: op, miso })] + words
                + seq![(t2, SpiEvent::ChipSelect(!active))];
            let out = flash_run(active, s, evs).1;
            &&& out.len() == 1
            &&& out[0] matches Ok((t, c))
            &&& t == t1
            &&& payload(c) == Some(payload_of(op, words.subrange(3, words.len() as int)))
            &&& payload(c).unwrap().len() == words.len() - 3
        }),
{
    let e0 = seq![(t0, SpiEvent::ChipSelect(active))];
    let head = e0.push((t1, SpiEvent::Data { mosi: op, miso }));
    assert(head.drop_last() =~= e0);
    assert(e0.drop_last() =~= Seq::<(i64, SpiEvent)>::empty());
    assert(flash_run(active, s, Seq::<(i64, SpiEvent)>::empty()).1.len() == 0);
    assert(flash_run(active, s, e0).1.len() == 0);
    assert(flash_run(active, s, e0).0 == (SpifView { cs: true, idx: 0, partial: PartialView::Empty }));
    assert(flash_run(active, s, head).1.len() == 0);
    lemma_variable_prefix(active, s, head, t1, op, words, words.len() as int);
    assert(words.take(words.len() as int) =~= words);
    let evs = head + words + seq![(t2, SpiEvent::ChipSelect(!active))];
    assert(evs.drop_last() =~= head + words);
    assert(seq![(t0, SpiEvent::ChipSelect(active)), (t1, SpiEvent::Data { mosi: op, miso })] =~= head);
}

/// Timestamp an output item carries.
pub open spec fn item_ts(x: FlashItem) -> i64 {
    match x {
        Ok((t, _)) => t,
        Err(FlashError::UnsupportedCommand { ts, .. }) => ts,
        Err(FlashError::TransactionTooLong { ts }) => ts,
    }
}

pub open spec fn items_ordered(out: Seq<FlashItem>) -> bool {
    forall|i: int, j: int| 0 <= i <= j < out.len() ==> item_ts(out[i]) <= item_ts(out[j])
}

/// Timestamp of the opcode word of the command in progress.
pub open spec fn partial_start(p: PartialView) -> Option<i64> {
    match p {
        PartialView::Empty => None,
        PartialView::Read(t, _, _) => Some(t),
        PartialView::ReadStatusRegister(t) => Some(t),
        PartialView::PageProgram(t, _, _) => Some(t),
        PartialView::BlockErase(t, _) => Some(t),
        PartialView::BlockErase32(t, _) => Some(t),
        PartialView::SectorErase(t, _) => Some(t),
        PartialView::ReadSFDP(t, _, _) => Some(t),
        PartialView::ReadDeviceId(t, _, _) => Some(t),
    }
}

proof fn lemma_step_times(active: bool, s: SpifView, ts: i64, ev: SpiEvent)
    ensures
        ({
            let (next, item) = flash_step(active, s, ts, ev);
            &&& partial_start(next.partial) is Some ==> (partial_start(next.partial) == partial_start(s.partial)
                || partial_start(next.partial) == Some(ts))
            &&& item is Some ==> (item_ts(item.unwrap()) == ts || Some(item_ts(item.unwrap())) == partial_start(s.partial))
        }),
{
}

/// Bounds on the timestamps of a run: the output is in order, no later than
/// the last event, and no later than the command in progress.
proof fn lemma_flash_times(active: bool, s: SpifView, evs: Seq<(i64, SpiEvent)>)
    requires
        events_ordered(evs),
        evs.len() > 0,
        partial_start(s.partial) is Some ==> partial_start(s.partial).unwrap() <= evs[0].0,
    ensures
        ({
            let (st, out) = flash_run(active, s, evs);
            &&& items_ordered(out)
            &&& forall|i: int| 0 <= i < out.len() ==> item_ts(#[trigger] out[i]) <= evs.last().0
            &&& partial_start(st.partial) is Some ==> {
                &&& partial_start(st.partial).unwrap() <= evs.last().0
                &&& forall|i: int| 0 <= i < out.len() ==> item_ts(#[trigger] out[i]) <= partial_start(st.partial).unwrap()
            }
        }),
    decreases evs.len(),
{
    let p = evs.drop_last();
    let (mid, out) = flash_run(active, s, p);
    let cur = evs.last().0;
    if p.len() == 0 {
        assert(out.len() == 0);
        assert(mid == s);
        assert(evs[0] == evs.last());
    } else {
        assert(events_ordered(p));
        lemma_flash_times(active, s, p);
        assert(p.last().0 <= cur);
    }
    lemma_step_times(active, mid, cur, evs.last().1);
    let (next, item) = flash_step(active, mid, cur, evs.last().1);
    match item {
        Some(it) => {
            let all = out.push(it);
            assert(forall|i: int| 0 <= i < out.len() ==> all[i] == out[i]);
            assert(items_ordered(all));
        },
        None => {},
    }
}

/// Fed events in time order, the flash decoder emits its commands in time
/// order; a command carries the timestamp of its opcode word.
pub proof fn flash_timestamps_ordered(active: bool, s: SpifView, evs: Seq<(i64, SpiEvent)>)
    requires
        events_ordered(evs),
        evs.len() > 0 && partial_start(s.partial) is Some ==> partial_start(s.partial).unwrap() <= evs[0].0,
    ensures
        items_ordered(flash_run(active, s, evs).1),
{
    if evs.len() > 0 {
        lemma_flash_times(active, s, evs);
    }
}

proof fn lemma_skip_window(active: bool, s: SpifView, head: Seq<(i64, SpiEvent)>, words: Seq<(i64, SpiEvent)>, n: int)
    requires
        0 <= n <= words.len(),
        forall|k: int| 0 <= k < words.len() ==> (#[trigger] words[k]).1 is Data || words[k].1 == SpiEvent::ChipSelect(!active),
        flash_run(active, s, head).0 == (SpifView { cs: false, idx: 0, partial: PartialView::Empty }),
    ensures
        flash_run(active, s, head + words.take(n)) == flash_run(active, s, head),
    decreases n,
{
    if n == 0 {
        assert(head + words.take(0) =~= head);
    } else {
        lemma_skip_window(active, s, head, words, n - 1);
        assert((head + words.take(n)).drop_last() =~= head + words.take(n - 1));
        assert((head + words.take(n)).last() == words[n - 1]);
    }
}

/// An opcode outside the table yields one error; the rest of its
/// transaction yields nothing, and the next chip-select assertion opens a
/// fresh transaction.
pub proof fn flash_recovers_after_error(
    active: bool,
    s: SpifView,
    t: i64,
    op: u8,
    miso: u8,
    words: Seq<(i64, SpiEvent)>,
    t2: i64,
)
    requires
        s.cs,
        s.partial is Empty,
        opcode_step(t, op, miso).1 matches Some(Err(_)),
        forall|k: int| 0 <= k < words.len() ==> (#[trigger] words[k]).1 is Data || words[k].1 == SpiEvent::ChipSelect(!active),
    ensures
        flash_run(active, s, seq![(t, SpiEvent::Data { mosi: op, miso })] + words + seq![(t2, SpiEvent::ChipSelect(active))]) == (
            SpifView { cs: true, idx: 0, partial: PartialView::Empty },
            seq![Err::<(i64, CommandView), FlashError>(FlashError::UnsupportedCommand { ts: t, mosi: op, miso })],
        ),
{
    let head = seq![(t, SpiEvent::Data { mosi: op, miso })];
    assert(head.drop_last() =~= Seq::<(i64, SpiEvent)>::empty());
    assert(head.last() == (t, SpiEvent::Data { mosi: op, miso }));
    assert(flash_run(active, s, Seq::<(i64, SpiEvent)>::empty()) == (s, Seq::<FlashItem>::empty()));
    assert(opcode_step(t, op, miso).0 is Empty);
    assert(flash_run(active, s, head).1 =~= seq![Err::<(i64, CommandView), FlashError>(FlashError::UnsupportedCommand { ts: t, mosi: op, miso })]);
    assert(flash_run(active, s, head).0 == (SpifView { cs: false, idx: 0, partial: PartialView::Empty }));
    lemma_skip_window(active, s, head, words, words.len() as int);
    assert(words.take(words.len() as int) =~= words);
    let evs = head + words + seq![(t2, SpiEvent::ChipSelect(active))];
    assert(evs.drop_last() =~= head + words);
    assert(evs.last() == (t2, SpiEvent::ChipSelect(active)));
}

} // verus!
