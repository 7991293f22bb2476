use vstd::prelude::*;
use crate::serial::SerialEvent;
use crate::text::{parse_dec, split, parse_decimal, split_fields, lemma_split_len, lemma_split_excludes, is_digit};

verus! {

/// An IPv4 address as its four octets, most significant first.
#[derive(Debug, Clone, Copy, PartialEq, Eq, Structural)]
pub struct Ipv4(pub u8, pub u8, pub u8, pub u8);

/// Where a block of received data comes from.
#[derive(Debug, Clone, Copy, PartialEq, Eq, Structural)]
pub struct RecvHeader {
    pub socket_id: u8,
    pub ip: Ipv4,
    pub port: u16,
}

/// A modem transaction. Text is kept as the bytes seen on the line.
pub enum WizFi310Event {
    Greeting(Vec<u8>),
    /// A command line sent to the modem, up to and including `\r`.
    Command(Vec<u8>),
    /// Data pushed to the modem after a data prompt.
    Sent(Vec<u8>),
    /// Data received on a socket.
    Recv(RecvHeader, Vec<u8>),
    /// A response line from the modem, up to and including `\n`.
    Resp(Vec<u8>),
}

pub enum WizFi310EventView {
    Greeting(Seq<u8>),
    Command(Seq<u8>),
    Sent(Seq<u8>),
    Recv(RecvHeader, Seq<u8>),
    Resp(Seq<u8>),
}

impl View for WizFi310Event {
    type V = WizFi310EventView;

    open spec fn view(&self) -> WizFi310EventView {
        match self {
            WizFi310Event::Greeting(v) => WizFi310EventView::Greeting(v@),
            WizFi310Event::Command(v) => WizFi310EventView::Command(v@),
            WizFi310Event::Sent(v) => WizFi310EventView::Sent(v@),
            WizFi310Event::Recv(h, v) => WizFi310EventView::Recv(*h, v@),
            WizFi310Event::Resp(v) => WizFi310EventView::Resp(v@),
        }
    }
}

/// Why the modem parser stopped.
#[derive(Debug, Clone, Copy, PartialEq, Eq, Structural)]
pub enum WizError {
    /// A data prompt or a receive header that does not parse.
    MalformedPrompt,
}

pub type WizItem = Result<(i128, WizFi310EventView), WizError>;

/// State of the modem parser: the bytes still expected after a data prompt
/// in each direction, the header of the data being received, and the text
/// gathered on each line.
pub struct WizView {
    pub data_to_send: usize,
    pub data_to_receive: usize,
    pub recv_header: Option<RecvHeader>,
    pub tx: Seq<u8>,
    pub rx: Seq<u8>,
}

/// The address four dot-separated decimal octets spell.
pub open spec fn parse_ip(s: Seq<u8>) -> Option<Ipv4> {
    let f = split(s, 0x2E);
    if f.len() == 4 && parse_dec(f[0], 255) is Some && parse_dec(f[1], 255) is Some
        && parse_dec(f[2], 255) is Some && parse_dec(f[3], 255) is Some {
        Some(Ipv4(
            parse_dec(f[0], 255).unwrap() as u8,
            parse_dec(f[1], 255).unwrap() as u8,
            parse_dec(f[2], 255).unwrap() as u8,
            parse_dec(f[3], 255).unwrap() as u8,
        ))
    } else {
        None
    }
}

/// The header and byte count of `socket_id,ip,port,length`.
pub open spec fn parse_header(s: Seq<u8>) -> Option<(RecvHeader, usize)> {
    let f = split(s, 0x2C);
    if f.len() == 4 && parse_dec(f[0], 255) is Some && parse_ip(f[1]) is Some
        && parse_dec(f[2], 65535) is Some && parse_dec(f[3], usize::MAX as nat) is Some {
        Some((
            RecvHeader {
                socket_id: parse_dec(f[0], 255).unwrap() as u8,
                ip: parse_ip(f[1]).unwrap(),
                port: parse_dec(f[2], 65535).unwrap() as u16,
            },
            parse_dec(f[3], usize::MAX as nat).unwrap() as usize,
        ))
    } else {
        None
    }
}

/// A line of the form `[...]\r\n` holding a comma: a data prompt, whose
/// last comma-separated field is the number of bytes to push.
pub open spec fn is_prompt(line: Seq<u8>) -> bool {
    &&& line.len() >= 4
    &&& line[0] == 0x5B
    &&& line[line.len() - 3] == 0x5D
    &&& line[line.len() - 2] == 0x0D
    &&& line[line.len() - 1] == 0x0A
    &&& exists|i: int| 0 <= i < line.len() && line[i] == 0x2C
}

/// The byte count a data prompt announces.
pub open spec fn prompt_count(line: Seq<u8>) -> Option<nat> {
    parse_dec(split(line.subrange(1, line.len() - 3), 0x2C).last(), usize::MAX as nat)
}

/// One UART event through the modem parser.
pub open spec fn wiz_step(s: WizView, ts: i128, ev: SerialEvent) -> (WizView, Option<WizItem>) {
    match ev {
        SerialEvent::Tx(c) => {
            let tx = s.tx.push(c);
            if s.data_to_send != 0 {
                if s.data_to_send == tx.len() {
                    (WizView { data_to_send: 0, tx: Seq::empty(), ..s }, Some(Ok((ts, WizFi310EventView::Sent(tx)))))
                } else {
                    (WizView { tx, ..s }, None)
                }
            } else if c == 0x0D {
                (WizView { tx: Seq::empty(), ..s }, Some(Ok((ts, WizFi310EventView::Command(tx)))))
            } else {
                (WizView { tx, ..s }, None)
            }
        },
        SerialEvent::Rx(c) => {
            let rx = s.rx.push(c);
            if s.data_to_receive != 0 {
                if s.data_to_receive == rx.len() {
                    (
                        WizView { data_to_receive: 0, recv_header: None, rx: Seq::empty(), ..s },
                        Some(Ok((ts, WizFi310EventView::Recv(s.recv_header.unwrap(), rx)))),
                    )
                } else {
                    (WizView { rx, ..s }, None)
                }
            } else if c == 0x0A {
                if is_prompt(rx) {
                    match prompt_count(rx) {
                        Some(n) => (
                            WizView { data_to_send: n as usize, rx: Seq::empty(), ..s },
                            Some(Ok((ts, WizFi310EventView::Resp(rx)))),
                        ),
                        None => (WizView { rx: Seq::empty(), ..s }, Some(Err(WizError::MalformedPrompt))),
                    }
                } else {
                    (WizView { rx: Seq::empty(), ..s }, Some(Ok((ts, WizFi310EventView::Resp(rx)))))
                }
            } else if c == 0x7D {
                if rx[0] == 0x7B && parse_header(rx.subrange(1, rx.len() - 1)) is Some {
                    let (h, n) = parse_header(rx.subrange(1, rx.len() - 1)).unwrap();
                    (WizView { recv_header: Some(h), data_to_receive: n, rx: Seq::empty(), ..s }, None)
                } else {
                    (WizView { rx: Seq::empty(), ..s }, Some(Err(WizError::MalformedPrompt)))
                }
            } else {
                (WizView { rx, ..s }, None)
            }
        },
        _ => (s, None),
    }
}

pub open spec fn wiz_ended(out: Seq<WizItem>) -> bool {
    out.len() > 0 && out.last() is Err
}

/// A sequence of UART events through the parser; nothing is parsed after
/// the first error.
pub open spec fn wiz_run(s: WizView, evs: Seq<(i128, SerialEvent)>) -> (WizView, Seq<WizItem>)
    decreases evs.len(),
{
    if evs.len() == 0 {
        (s, Seq::empty())
    } else {
        let (mid, out) = wiz_run(s, evs.drop_last());
        if wiz_ended(out) {
            (mid, out)
        } else {
            let (next, item) = wiz_step(mid, evs.last().0, evs.last().1);
            match item {
                Some(i) => (next, out.push(i)),
                None => (next, out),
            }
        }
    }
}

pub open spec fn wiz_item_view(x: Result<(i128, WizFi310Event), WizError>) -> WizItem {
    match x {
        Ok((t, e)) => Ok((t, e@)),
        Err(e) => Err(e),
    }
}

pub open spec fn wiz_opt_view(x: Option<Result<(i128, WizFi310Event), WizError>>) -> Option<WizItem> {
    match x {
        Some(i) => Some(wiz_item_view(i)),
        None => None,
    }
}

pub open spec fn wiz_items_view(s: Seq<Result<(i128, WizFi310Event), WizError>>) -> Seq<WizItem> {
    s.map_values(|x: Result<(i128, WizFi310Event), WizError>| wiz_item_view(x))
}

fn field_u8(f: &Vec<u8>) -> (r: Option<u8>)
    ensures
        r matches Some(v) ==> parse_dec(f@, 255) == Some(v as nat),
        r is None ==> parse_dec(f@, 255) is None,
{
    proof {
        assert(f@.subrange(0, f.len() as int) =~= f@);
    }
    match parse_decimal(f, 0, f.len(), 255) {
        Some(v) => Some(v as u8),
        None => None,
    }
}

fn read_ip(f: &Vec<u8>) -> (r: Option<Ipv4>)
    ensures
        r == parse_ip(f@),
{
    let parts = split_fields(f, 0, f.len(), 0x2E);
    proof {
        assert(f@.subrange(0, f.len() as int) =~= f@);
    }
    if parts.len() != 4 {
        return None;
    }
    let a = field_u8(&parts[0]);
    let b = field_u8(&parts[1]);
    let c = field_u8(&parts[2]);
    let d = field_u8(&parts[3]);
    match (a, b, c, d) {
        (Some(a), Some(b), Some(c), Some(d)) => Some(Ipv4(a, b, c, d)),
        _ => None,
    }
}

/// Parses `socket_id,ip,port,length` from `s[lo..hi]`.
fn read_header(s: &Vec<u8>, lo: usize, hi: usize) -> (r: Option<(RecvHeader, usize)>)
    requires
        lo <= hi <= s.len(),
    ensures
        r == parse_header(s@.subrange(lo as int, hi as int)),
{
    let f = split_fields(s, lo, hi, 0x2C);
    if f.len() != 4 {
        return None;
    }
    let id = field_u8(&f[0]);
    let ip = read_ip(&f[1]);
    proof {
        assert(f[2]@.subrange(0, f[2].len() as int) =~= f[2]@);
        assert(f[3]@.subrange(0, f[3].len() as int) =~= f[3]@);
    }
    let port = parse_decimal(&f[2], 0, f[2].len(), 65535);
    let len = parse_decimal(&f[3], 0, f[3].len(), usize::MAX as u64);
    match (id, ip, port, len) {
        (Some(id), Some(ip), Some(port), Some(len)) => Some((RecvHeader { socket_id: id, ip, port: port as u16 }, len as usize)),
        _ => None,
    }
}

/// Parses the WizFi310 AT-command session out of UART events.
pub struct Wizfi310 {
    inspect: bool,
    data_to_send: usize,
    data_to_receive: usize,
    recv_header: Option<RecvHeader>,
    tx: Vec<u8>,
    rx: Vec<u8>,
}

impl View for Wizfi310 {
    type V = WizView;

    closed spec fn view(&self) -> WizView {
        WizView {
            data_to_send: self.data_to_send,
            data_to_receive: self.data_to_receive,
            recv_header: self.recv_header,
            tx: self.tx@,
            rx: self.rx@,
        }
    }
}

/// The receive counter is set only together with a header.
pub open spec fn wiz_wf(s: WizView) -> bool {
    s.data_to_receive != 0 ==> s.recv_header is Some
}

impl Wizfi310 {
    pub closed spec fn inspect_flag(&self) -> bool {
        self.inspect
    }

    /// A parser with empty buffers and nothing expected.
    pub fn new(inspect: bool) -> (r: Wizfi310)
        ensures
            r@ == (WizView {
                data_to_send: 0,
                data_to_receive: 0,
                recv_header: None,
                tx: Seq::empty(),
                rx: Seq::empty(),
            }),
            r.inspect_flag() == inspect,
    {
        Wizfi310 { inspect, data_to_send: 0, data_to_receive: 0, recv_header: None, tx: Vec::new(), rx: Vec::new() }
    }

    pub fn inspect(&self) -> (r: bool)
        ensures
            r == self.inspect_flag(),
    {
        self.inspect
    }

    fn take_tx(&mut self) -> (r: Vec<u8>)
        ensures
            r@ == old(self).tx@,
            final(self)@ == (WizView { tx: Seq::empty(), ..old(self)@ }),
            final(self).inspect == old(self).inspect,
    {
        let mut v: Vec<u8> = Vec::new();
        std::mem::swap(&mut v, &mut self.tx);
        v
    }

    fn take_rx(&mut self) -> (r: Vec<u8>)
        ensures
            r@ == old(self).rx@,
            final(self)@ == (WizView { rx: Seq::empty(), ..old(self)@ }),
            final(self).inspect == old(self).inspect,
    {
        let mut v: Vec<u8> = Vec::new();
        std::mem::swap(&mut v, &mut self.rx);
        v
    }

    /// Whether the receive buffer is a data prompt.
    fn rx_is_prompt(&self) -> (r: bool)
        ensures
            r == is_prompt(self.rx@),
    {
        let n = self.rx.len();
        if n < 4 || self.rx[0] != 0x5B || self.rx[n - 3] != 0x5D || self.rx[n - 2] != 0x0D || self.rx[n - 1] != 0x0A {
            return false;
        }
        let mut i: usize = 0;
        while i < n
            invariant
                n == self.rx.len(),
                n >= 4,
                self.rx@[0] == 0x5B && self.rx@[n - 3] == 0x5D && self.rx@[n - 2] == 0x0D && self.rx@[n - 1] == 0x0A,
                i <= n,
                forall|k: int| 0 <= k < i ==> self.rx@[k] != 0x2C,
            decreases n - i,
        {
            if self.rx[i] == 0x2C {
                assert(self.rx@[i as int] == 0x2C);
                return true;
            }
            i = i + 1;
        }
        false
    }

    fn on_rx(&mut self, ts: i128, c: u8) -> (r: Option<Result<(i128, WizFi310Event), WizError>>)
        requires
            wiz_wf(old(self)@),
        ensures
            wiz_wf(final(self)@),
            final(self).inspect == old(self).inspect,
            (final(self)@, wiz_opt_view(r)) == wiz_step(old(self)@, ts, SerialEvent::Rx(c)),
    {
        self.rx.push(c);
        if self.data_to_receive != 0 {
            if self.data_to_receive == self.rx.len() {
                self.data_to_receive = 0;
                let v = self.take_rx();
                let mut h: Option<RecvHeader> = None;
                std::mem::swap(&mut h, &mut self.recv_header);
                match h {
                    Some(h) => Some(Ok((ts, WizFi310Event::Recv(h, v)))),
                    None => None,
                }
            } else {
                None
            }
        } else if c == 0x0A {
            if self.rx_is_prompt() {
                let n = self.rx.len();
                let parts = split_fields(&self.rx, 1, n - 3, 0x2C);
                proof {
                    lemma_split_len(self.rx@.subrange(1, n - 3), 0x2C);
                }
                let last = parts.len() - 1;
                proof {
                    assert(parts@.map_values(|v: Vec<u8>| v@)[last as int] == parts[last as int]@);
                    assert(parts[last as int]@.subrange(0, parts[last as int].len() as int) =~= parts[last as int]@);
                }
                let count = parse_decimal(&parts[last], 0, parts[last].len(), usize::MAX as u64);
                let v = self.take_rx();
                match count {
                    Some(k) => {
                        self.data_to_send = k as usize;
                        Some(Ok((ts, WizFi310Event::Resp(v))))
                    },
                    None => Some(Err(WizError::MalformedPrompt)),
                }
            } else {
                let v = self.take_rx();
                Some(Ok((ts, WizFi310Event::Resp(v))))
            }
        } else if c == 0x7D {
            let n = self.rx.len();
            let header = if self.rx[0] == 0x7B {
                read_header(&self.rx, 1, n - 1)
            } else {
                None
            };
            let _ = self.take_rx();
            match header {
                Some((h, k)) => {
                    self.recv_header = Some(h);
                    self.data_to_receive = k;
                    None
                },
                None => Some(Err(WizError::MalformedPrompt)),
            }
        } else {
            None
        }
    }

    /// Feeds one UART event; returns the transaction it completes, if any.
    pub fn update(&mut self, ts: i128, ev: SerialEvent) -> (r: Option<Result<(i128, WizFi310Event), WizError>>)
        requires
            wiz_wf(old(self)@),
        ensures
            wiz_wf(final(self)@),
            final(self).inspect_flag() == old(self).inspect_flag(),
            (final(self)@, wiz_opt_view(r)) == wiz_step(old(self)@, ts, ev),
    {
        match ev {
            SerialEvent::Tx(c) => {
                self.tx.push(c);
                if self.data_to_send != 0 {
                    if self.data_to_send == self.tx.len() {
                        self.data_to_send = 0;
                        let v = self.take_tx();
                        Some(Ok((ts, WizFi310Event::Sent(v))))
                    } else {
                        None
                    }
                } else if c == 0x0D {
                    let v = self.take_tx();
                    Some(Ok((ts, WizFi310Event::Command(v))))
                } else {
                    None
                }
            },
            SerialEvent::Rx(c) => self.on_rx(ts, c),
            _ => None,
        }
    }

    /// Feeds the events in order and returns the transactions they complete;
    /// the output ends with the first error, and nothing after it is parsed.
    pub fn decode(&mut self, events: &Vec<(i128, SerialEvent)>) -> (r: Vec<Result<(i128, WizFi310Event), WizError>>)
        requires
            wiz_wf(old(self)@),
        ensures
            wiz_wf(final(self)@),
            final(self).inspect_flag() == old(self).inspect_flag(),
            (final(self)@, wiz_items_view(r@)) == wiz_run(old(self)@, events@),
    {
        let mut out: Vec<Result<(i128, WizFi310Event), WizError>> = Vec::new();
        let mut done = false;
        let mut i: usize = 0;
        while i < events.len()
            invariant
                wiz_wf(self@),
                self.inspect_flag() == old(self).inspect_flag(),
                i <= events.len(),
                done == wiz_ended(wiz_items_view(out@)),
                (self@, wiz_items_view(out@)) == wiz_run(old(self)@, events@.take(i as int)),
            decreases events.len() - i,
        {
            proof {
                assert(events@.take(i + 1).drop_last() =~= events@.take(i as int));
            }
            if !done {
                let (ts, ev) = events[i];
                match self.update(ts, ev) {
                    Some(item) => {
                        let is_err = item.is_err();
                        let ghost before = out@;
                        out.push(item);
                        proof {
                            assert(wiz_items_view(out@) =~= wiz_items_view(before).push(wiz_item_view(item)));
                        }
                        done = is_err;
                    },
                    None => {},
                }
            }
            i = i + 1;
        }
        proof {
            assert(events@.take(i as int) =~= events@);
        }
        out
    }
}

proof fn lemma_digits_exclude(f: Seq<u8>, max: nat, c: u8)
    requires
        parse_dec(f, max) is Some,
        !is_digit(c),
    ensures
        forall|k: int| 0 <= k < f.len() ==> f[k] != c,
{
}

/// A well-formed receive header holds neither a line end nor a closing brace.
proof fn lemma_header_plain(content: Seq<u8>, c: u8)
    requires
        parse_header(content) is Some,
        c == 0x0A || c == 0x7D,
    ensures
        forall|k: int| 0 <= k < content.len() ==> content[k] != c,
{
    let f = split(content, 0x2C);
    let ipf = split(f[1], 0x2E);
    lemma_digits_exclude(f[0], 255, c);
    lemma_digits_exclude(f[2], 65535, c);
    lemma_digits_exclude(f[3], usize::MAX as nat, c);
    lemma_digits_exclude(ipf[0], 255, c);
    lemma_digits_exclude(ipf[1], 255, c);
    lemma_digits_exclude(ipf[2], 255, c);
    lemma_digits_exclude(ipf[3], 255, c);
    lemma_split_excludes(f[1], 0x2E, c);
    lemma_split_excludes(content, 0x2C, c);
}

/// Receive-side bytes that are neither a line end nor a closing brace only
/// accumulate while no data is expected.
proof fn lemma_rx_accumulate(s: WizView, evs: Seq<(i128, SerialEvent)>, bytes: Seq<u8>, n: int)
    requires
        s.data_to_receive == 0,
        0 <= n <= evs.len(),
        evs.len() == bytes.len(),
        forall|k: int| 0 <= k < evs.len() ==> (#[trigger] evs[k]).1 == SerialEvent::Rx(bytes[k]),
        forall|k: int| 0 <= k < bytes.len() ==> bytes[k] != 0x0A && bytes[k] != 0x7D,
    ensures
        wiz_run(s, evs.take(n)).1.len() == 0,
        wiz_run(s, evs.take(n)).0 == (WizView { rx: s.rx + bytes.take(n), ..s }),
    decreases n,
{
    if n == 0 {
        assert(evs.take(0) =~= Seq::<(i128, SerialEvent)>::empty());
        assert(s.rx + bytes.take(0) =~= s.rx);
    } else {
        lemma_rx_accumulate(s, evs, bytes, n - 1);
        assert(evs.take(n).drop_last() =~= evs.take(n - 1));
        assert(evs.take(n).last() == evs[n - 1]);
        assert((s.rx + bytes.take(n - 1)).push(bytes[n - 1]) =~= s.rx + bytes.take(n));
    }
}

/// With `count` bytes expected and `got` of them gathered, each further
/// receive byte is gathered, and the last one completes the data block.
proof fn lemma_rx_payload(s: WizView, evs: Seq<(i128, SerialEvent)>, payload: Seq<u8>, n: int)
    requires
        s.data_to_receive == payload.len(),
        payload.len() > 0,
        s.rx.len() == 0,
        0 <= n < evs.len(),
        evs.len() == payload.len(),
        forall|k: int| 0 <= k < evs.len() ==> (#[trigger] evs[k]).1 == SerialEvent::Rx(payload[k]),
    ensures
        wiz_run(s, evs.take(n)).1.len() == 0,
        wiz_run(s, evs.take(n)).0 == (WizView { rx: payload.take(n), ..s }),
    decreases n,
{
    if n == 0 {
        assert(evs.take(0) =~= Seq::<(i128, SerialEvent)>::empty());
        assert(payload.take(0) =~= s.rx);
    } else {
        lemma_rx_payload(s, evs, payload, n - 1);
        assert(evs.take(n).drop_last() =~= evs.take(n - 1));
        assert(evs.take(n).last() == evs[n - 1]);
        assert(payload.take(n - 1).push(payload[n - 1]) =~= payload.take(n));
    }
}

/// The byte count in a `{socket_id,ip,port,length}` header equals the length
/// of the data block that follows: on the receive side, after the header,
/// exactly `length` further bytes (whatever they hold) come out as one `Recv`
/// carrying the header and those bytes.
pub proof fn wizfi_recv_length(
    s: WizView,
    content: Seq<u8>,
    payload: Seq<u8>,
    evs: Seq<(i128, SerialEvent)>,
)
    requires
        s.data_to_receive == 0,
        s.rx.len() == 0,
        parse_header(content) is Some,
        parse_header(content).unwrap().1 > 0,
        payload.len() == parse_header(content).unwrap().1,
        evs.len() == content.len() + 2 + payload.len(),
        forall|k: int| 0 <= k < evs.len() ==> (#[trigger] evs[k]).1 == SerialEvent::Rx(
            (seq![0x7Bu8] + content + seq![0x7Du8] + payload)[k],
        ),
    ensures
        wiz_run(s, evs).1 == seq![Ok::<(i128, WizFi310EventView), WizError>(
            (evs.last().0, WizFi310EventView::Recv(parse_header(content).unwrap().0, payload)),
        )],
        payload.len() == parse_header(content).unwrap().1,
{
    let bytes = seq![0x7Bu8] + content + seq![0x7Du8] + payload;
    let head = seq![0x7Bu8] + content;
    let hn = head.len() as int;
    lemma_header_plain(content, 0x0A);
    lemma_header_plain(content, 0x7D);
    let h_evs = evs.take(hn);
    assert forall|k: int| 0 <= k < h_evs.len() implies (#[trigger] h_evs[k]).1 == SerialEvent::Rx(head[k]) by {
        assert(bytes[k] == head[k]);
    }
    assert forall|k: int| 0 <= k < head.len() implies head[k] != 0x0A && head[k] != 0x7D by {
        if k > 0 {
            assert(head[k] == content[k - 1]);
        }
    }
    lemma_rx_accumulate(s, h_evs, head, hn);
    assert(h_evs.take(hn) =~= h_evs);
    assert(head.take(hn) =~= head);
    assert(s.rx + head =~= head);
    // the closing brace
    let b_evs = evs.take(hn + 1);
    assert(b_evs.drop_last() =~= h_evs);
    assert(b_evs.last() == evs[hn]);
    assert(bytes[hn] == 0x7D);
    let rx = head.push(0x7Du8);
    assert(rx.subrange(1, rx.len() - 1) =~= content);
    let (hdr, n) = parse_header(content).unwrap();
    let s2 = WizView { recv_header: Some(hdr), data_to_receive: n, rx: Seq::empty(), ..s };
    assert(wiz_run(s, b_evs) == (s2, Seq::<WizItem>::empty()));
    // the data block
    let p_evs = evs.skip(hn + 1);
    assert forall|k: int| 0 <= k < p_evs.len() implies (#[trigger] p_evs[k]).1 == SerialEvent::Rx(payload[k]) by {
        assert(p_evs[k] == evs[hn + 1 + k]);
        assert(bytes[hn + 1 + k] == payload[k]);
    }
    let pn = payload.len() as int;
    lemma_rx_payload(s2, p_evs, payload, pn - 1);
    lemma_run_concat(s, b_evs, p_evs.take(pn - 1));
    assert(b_evs + p_evs.take(pn - 1) =~= evs.drop_last());
    assert(evs.last() == p_evs[pn - 1]);
    assert(payload.take(pn - 1).push(payload[pn - 1]) =~= payload);
}

/// Running two pieces one after the other is running them joined, while
/// the first piece ends with no error.
proof fn lemma_run_concat(s: WizView, a: Seq<(i128, SerialEvent)>, b: Seq<(i128, SerialEvent)>)
    requires
        wiz_run(s, a).1.len() == 0,
    ensures
        wiz_run(s, a + b) == wiz_run(wiz_run(s, a).0, b),
    decreases b.len(),
{
    if b.len() == 0 {
        assert(a + b =~= a);
    } else {
        lemma_run_concat(s, a, b.drop_last());
        assert((a + b).drop_last() =~= a + b.drop_last());
        assert((a + b).last() == b.last());
    }
}

pub open spec fn wiz_items_ordered(out: Seq<WizItem>) -> bool {
    forall|i: int, j: int| 0 <= i <= j < out.len() && out[i] is Ok && out[j] is Ok
        ==> out[i]->Ok_0.0 <= out[j]->Ok_0.0
}

pub open spec fn serial_events_ordered(e: Seq<(i128, SerialEvent)>) -> bool {
    forall|i: int, j: int| 0 <= i <= j < e.len() ==> e[i].0 <= e[j].0
}

/// Fed events in time order, the modem parser emits its transactions in
/// time order: each carries the timestamp of the event that completed it.
pub proof fn wizfi_timestamps_ordered(s: WizView, evs: Seq<(i128, SerialEvent)>)
    requires
        serial_events_ordered(evs),
    ensures
        wiz_items_ordered(wiz_run(s, evs).1),
        evs.len() > 0 ==> forall|i: int| 0 <= i < wiz_run(s, evs).1.len() && wiz_run(s, evs).1[i] is Ok
            ==> (#[trigger] wiz_run(s, evs).1[i])->Ok_0.0 <= evs.last().0,
    decreases evs.len(),
{
    if evs.len() > 0 {
        let p = evs.drop_last();
        wizfi_timestamps_ordered(s, p);
        if p.len() > 0 {
            assert(p.last().0 <= evs.last().0);
        }
        let (mid, out) = wiz_run(s, p);
        if !wiz_ended(out) {
            let (next, item) = wiz_step(mid, evs.last().0, evs.last().1);
            if let Some(it) = item {
                let all = out.push(it);
                assert(forall|i: int| 0 <= i < out.len() ==> all[i] == out[i]);
            }
        }
    }
}

} // verus!
