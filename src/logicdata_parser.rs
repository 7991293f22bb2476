use vstd::prelude::*;
use crate::sample::{Sample, SampleError};

verus! {

/// Length of one binary record: an eight-byte tick count and a channel byte.
pub const RECORD_LEN: usize = 9;

/// Unsigned value of bytes read least significant first.
pub open spec fn le_u64_of(b: Seq<u8>) -> int
    decreases b.len(),
{
    if b.len() == 0 {
        0
    } else {
        b[0] as int + 256 * le_u64_of(b.drop_first())
    }
}

/// Two's-complement value of eight bytes read least significant first.
pub open spec fn le_i64_of(b: Seq<u8>) -> int {
    let u = le_u64_of(b);
    if u < 0x8000_0000_0000_0000 {
        u
    } else {
        u - 0x1_0000_0000_0000_0000
    }
}

proof fn lemma_le_u64_bound(b: Seq<u8>)
    ensures
        0 <= le_u64_of(b) < pow256(b.len()),
    decreases b.len(),
{
    if b.len() > 0 {
        lemma_le_u64_bound(b.drop_first());
        assert(pow256(b.len()) == 256 * pow256((b.len() - 1) as nat));
    }
}

spec fn pow256(n: nat) -> int
    decreases n,
{
    if n == 0 {
        1
    } else {
        256 * pow256((n - 1) as nat)
    }
}

/// Reads the signed tick count of the record that starts at `pos`.
fn read_ticks(input: &Vec<u8>, pos: usize) -> (r: i64)
    requires
        pos + 8 <= input.len(),
    ensures
        r as int == le_i64_of(input@.subrange(pos as int, pos + 8)),
{
    let mut acc: u64 = 0;
    let mut i: usize = 8;
    while i > 0
        invariant
            pos + 8 <= input.len(),
            i <= 8,
            acc as int == le_u64_of(input@.subrange(pos + i, pos + 8)),
        decreases i,
    {
        let ghost tail = input@.subrange(pos + i, pos + 8);
        let ghost longer = input@.subrange(pos + i - 1, pos + 8);
        proof {
            lemma_le_u64_bound(tail);
            assert(longer.drop_first() =~= tail);
            assert(pow256(tail.len()) <= pow256(7)) by {
                lemma_pow256_mono(tail.len(), 7);
            }
            lemma_pow256_values();
        }
        acc = acc * 256 + input[pos + i - 1] as u64;
        i = i - 1;
    }
    proof {
        let b = input@.subrange(pos as int, pos + 8);
        lemma_le_u64_bound(b);
        lemma_pow256_values();
    }
    if acc < 0x8000_0000_0000_0000 {
        acc as i64
    } else {
        ((acc - 0x8000_0000_0000_0000) as i64) - 0x7FFF_FFFF_FFFF_FFFF - 1
    }
}

proof fn lemma_pow256_values()
    ensures
        pow256(7) == 0x100_0000_0000_0000,
        pow256(8) == 0x1_0000_0000_0000_0000,
{
    reveal_with_fuel(pow256, 9);
}

proof fn lemma_pow256_mono(a: nat, b: nat)
    requires
        a <= b,
    ensures
        pow256(a) <= pow256(b),
    decreases b,
{
    if a < b {
        lemma_pow256_mono(a, (b - 1) as nat);
        assert(pow256(b) == 256 * pow256((b - 1) as nat));
        lemma_pow256_pos((b - 1) as nat);
    }
}

proof fn lemma_pow256_pos(a: nat)
    ensures
        pow256(a) >= 1,
    decreases a,
{
    if a > 0 {
        lemma_pow256_pos((a - 1) as nat);
    }
}

/// Source of samples from the binary capture format: fixed nine-byte
/// records, a little-endian signed tick count followed by the channel byte.
pub struct LogicDataParser {
    input: Vec<u8>,
    pos: usize,
    freq: u64,
    last: Option<i64>,
    stopped: bool,
}

impl LogicDataParser {
    /// The whole input this source reads.
    pub closed spec fn input(&self) -> Seq<u8> {
        self.input@
    }

    /// How far the input has been consumed.
    pub closed spec fn pos(&self) -> int {
        self.pos as int
    }

    /// Timestamp of the last sample handed out, if any.
    pub closed spec fn last(&self) -> Option<i64> {
        self.last
    }

    /// Whether the stream has ended.
    pub closed spec fn stopped(&self) -> bool {
        self.stopped
    }

    pub closed spec fn freq(&self) -> u64 {
        self.freq
    }

    pub closed spec fn wf(&self) -> bool {
        self.pos <= self.input.len() && self.freq > 0
    }

    /// A source over `input` whose ticks run at `freq` per second; a
    /// frequency of zero stands for one tick per second.
    pub fn new(input: Vec<u8>, freq: u64) -> (r: LogicDataParser)
        ensures
            r.wf(),
            r.input() == input@,
            r.pos() == 0,
            r.last() is None,
            !r.stopped(),
            r.freq() == if freq == 0 { 1 } else { freq },
    {
        LogicDataParser { input, pos: 0, freq: if freq == 0 { 1 } else { freq }, last: None, stopped: false }
    }

    /// Ticks per second of the timestamps this source hands out.
    pub fn ticks_per_second(&self) -> (r: u64)
        requires
            self.wf(),
        ensures
            r == self.freq(),
            r > 0,
    {
        self.freq
    }

    /// The next sample, the error that ends the stream, or `None` at its end.
    ///
    /// Input that ends on a record boundary ends the stream; a partial record
    /// is `Truncated`, a tick count below the previous one `NonMonotonic`.
    /// So the samples handed out never go back in time.
    pub fn next(&mut self) -> (r: Option<Result<Sample, SampleError>>)
        requires
            old(self).wf(),
        ensures
            final(self).wf(),
            final(self).input() == old(self).input(),
            final(self).freq() == old(self).freq(),
            ({
                let s = old(self);
                let input = s.input();
                let pos = s.pos();
                let rec = input.subrange(pos, pos + 9);
                if s.stopped() || pos == input.len() {
                    r is None && final(self).stopped() == s.stopped() && final(self).pos() == pos
                } else if input.len() - pos < 9 {
                    r == Some(Err::<Sample, SampleError>(SampleError::Truncated)) && final(self).stopped()
                } else if s.last() is Some && le_i64_of(rec.take(8)) < s.last().unwrap() as int {
                    r == Some(Err::<Sample, SampleError>(SampleError::NonMonotonic)) && final(self).stopped()
                } else {
                    &&& r matches Some(Ok(smp))
                    &&& smp.timestamp as int == le_i64_of(rec.take(8))
                    &&& smp.sample == rec[8]
                    &&& final(self).pos() == pos + 9
                    &&& final(self).last() == Some(smp.timestamp)
                    &&& !final(self).stopped()
                }
            }),
    {
        if self.stopped || self.pos == self.input.len() {
            return None;
        }
        if self.input.len() - self.pos < RECORD_LEN {
            self.stopped = true;
            return Some(Err(SampleError::Truncated));
        }
        let ticks = read_ticks(&self.input, self.pos);
        proof {
            let rec = self.input@.subrange(self.pos as int, self.pos + 9);
            assert(rec.take(8) =~= self.input@.subrange(self.pos as int, self.pos + 8));
        }
        match self.last {
            Some(l) => {
                if ticks < l {
                    self.stopped = true;
                    return Some(Err(SampleError::NonMonotonic));
                }
            },
            None => {},
        }
        let smp = Sample { sample: self.input[self.pos + 8], timestamp: ticks };
        self.pos = self.pos + RECORD_LEN;
        self.last = Some(ticks);
        Some(Ok(smp))
    }
}

} // verus!
