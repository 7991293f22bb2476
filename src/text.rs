use vstd::prelude::*;

verus! {

pub open spec fn is_digit(c: u8) -> bool {
    0x30 <= c <= 0x39
}

/// Value of a string of decimal digits.
pub open spec fn dec_value(s: Seq<u8>) -> nat
    decreases s.len(),
{
    if s.len() == 0 {
        0
    } else {
        dec_value(s.drop_last()) * 10 + (s.last() - 0x30) as nat
    }
}

/// The number a field of decimal digits spells, if it is one and at most `max`.
pub open spec fn parse_dec(s: Seq<u8>, max: nat) -> Option<nat> {
    if s.len() > 0 && (forall|i: int| 0 <= i < s.len() ==> is_digit(#[trigger] s[i])) && dec_value(s) <= max {
        Some(dec_value(s))
    } else {
        None
    }
}

/// `s` cut at every `sep`; always at least one (possibly empty) field.
pub open spec fn split(s: Seq<u8>, sep: u8) -> Seq<Seq<u8>>
    decreases s.len(),
{
    if s.len() == 0 {
        seq![Seq::empty()]
    } else {
        let r = split(s.drop_last(), sep);
        if s.last() == sep {
            r.push(Seq::empty())
        } else {
            r.update(r.len() - 1, r.last().push(s.last()))
        }
    }
}

pub proof fn lemma_split_len(s: Seq<u8>, sep: u8)
    ensures
        split(s, sep).len() >= 1,
    decreases s.len(),
{
    if s.len() > 0 {
        lemma_split_len(s.drop_last(), sep);
    }
}

/// The number the digits of `s[lo..hi]` spell, if they are all digits and
/// the number is at most `max`.
pub fn parse_decimal(s: &Vec<u8>, lo: usize, hi: usize, max: u64) -> (r: Option<u64>)
    requires
        lo <= hi <= s.len(),
    ensures
        r matches Some(v) ==> parse_dec(s@.subrange(lo as int, hi as int), max as nat) == Some(v as nat),
        r is None ==> parse_dec(s@.subrange(lo as int, hi as int), max as nat) is None,
{
    if lo == hi {
        return None;
    }
    let mut acc: u64 = 0;
    let mut i: usize = lo;
    while i < hi
        invariant
            lo <= i <= hi <= s.len(),
            forall|k: int| lo <= k < i ==> is_digit(#[trigger] s@[k]),
            acc as nat == dec_value(s@.subrange(lo as int, i as int)),
            acc <= max,
        decreases hi - i,
    {
        let c = s[i];
        proof {
            assert(s@.subrange(lo as int, i + 1).drop_last() =~= s@.subrange(lo as int, i as int));
        }
        if c < 0x30 || c > 0x39 {
            proof {
                let sub = s@.subrange(lo as int, hi as int);
                assert(!is_digit(sub[i - lo]));
            }
            return None;
        }
        let d = (c - 0x30) as u64;
        if d > max || acc > (max - d) / 10 {
            proof {
                lemma_dec_grows(s@.subrange(lo as int, hi as int), (i + 1 - lo) as int);
                assert(s@.subrange(lo as int, hi as int).take((i + 1 - lo) as int) =~= s@.subrange(lo as int, i + 1));
                if d <= max {
                    assert(acc * 10 + d > max) by (nonlinear_arith)
                        requires
                            acc > (max - d) / 10,
                            d <= max,
                    ;
                }
                assert(dec_value(s@.subrange(lo as int, i + 1)) == acc * 10 + d);
            }
            return None;
        }
        acc = acc * 10 + d;
        i = i + 1;
    }
    Some(acc)
}

/// With digits only, the value of a prefix is at most that of the whole.
proof fn lemma_dec_grows(s: Seq<u8>, n: int)
    requires
        0 <= n <= s.len(),
    ensures
        (forall|i: int| 0 <= i < s.len() ==> is_digit(#[trigger] s[i])) ==> dec_value(s.take(n)) <= dec_value(s),
    decreases s.len() - n,
{
    if n < s.len() {
        lemma_dec_grows(s, n + 1);
        assert(s.take(n + 1).drop_last() =~= s.take(n));
        assert(s.take(n) =~= s.take(n));
    } else {
        assert(s.take(n) =~= s);
    }
}

/// The fields of `s[lo..hi]` cut at every `sep`.
pub fn split_fields(s: &Vec<u8>, lo: usize, hi: usize, sep: u8) -> (r: Vec<Vec<u8>>)
    requires
        lo <= hi <= s.len(),
    ensures
        r@.map_values(|v: Vec<u8>| v@) == split(s@.subrange(lo as int, hi as int), sep),
{
    let mut done: Vec<Vec<u8>> = Vec::new();
    let mut cur: Vec<u8> = Vec::new();
    let mut i: usize = lo;
    proof {
        assert(s@.subrange(lo as int, lo as int) =~= Seq::<u8>::empty());
        assert(done@.map_values(|v: Vec<u8>| v@).push(cur@) =~= seq![Seq::<u8>::empty()]);
    }
    while i < hi
        invariant
            lo <= i <= hi <= s.len(),
            done@.map_values(|v: Vec<u8>| v@).push(cur@) == split(s@.subrange(lo as int, i as int), sep),
        decreases hi - i,
    {
        let ghost prev = s@.subrange(lo as int, i as int);
        let ghost next = s@.subrange(lo as int, i + 1);
        proof {
            assert(next.drop_last() =~= prev);
            assert(next.last() == s@[i as int]);
            lemma_split_len(prev, sep);
        }
        let c = s[i];
        if c == sep {
            let mut fresh: Vec<u8> = Vec::new();
            std::mem::swap(&mut fresh, &mut cur);
            let ghost d0 = done@;
            done.push(fresh);
            proof {
                assert(done@.map_values(|v: Vec<u8>| v@) =~= d0.map_values(|v: Vec<u8>| v@).push(fresh@));
                assert(done@.map_values(|v: Vec<u8>| v@).push(cur@) =~= split(next, sep));
            }
        } else {
            let ghost c0 = cur@;
            cur.push(c);
            proof {
                assert(done@.map_values(|v: Vec<u8>| v@).push(cur@) =~= split(next, sep));
            }
        }
        i = i + 1;
    }
    let ghost d0 = done@;
    done.push(cur);
    proof {
        assert(done@.map_values(|v: Vec<u8>| v@) =~= d0.map_values(|v: Vec<u8>| v@).push(done@.last()@));
    }
    done
}

/// A byte that is no separator and occurs in no field does not occur at all.
pub proof fn lemma_split_excludes(s: Seq<u8>, sep: u8, c: u8)
    requires
        c != sep,
        forall|f: int, k: int| 0 <= f < split(s, sep).len() && 0 <= k < split(s, sep)[f].len() ==> split(s, sep)[f][k] != c,
    ensures
        forall|k: int| 0 <= k < s.len() ==> s[k] != c,
    decreases s.len(),
{
    if s.len() > 0 {
        let p = s.drop_last();
        let r = split(p, sep);
        lemma_split_len(p, sep);
        let whole = split(s, sep);
        if s.last() == sep {
            assert forall|f: int, k: int| 0 <= f < r.len() && 0 <= k < r[f].len() implies r[f][k] != c by {
                assert(whole[f] == r[f]);
            }
        } else {
            let lf = r.len() - 1;
            assert(whole[lf] == r[lf].push(s.last()));
            assert(whole[lf][r[lf].len() as int] == s.last());
            assert forall|f: int, k: int| 0 <= f < r.len() && 0 <= k < r[f].len() implies r[f][k] != c by {
                if f == lf {
                    assert(whole[lf][k] == r[lf][k]);
                } else {
                    assert(whole[f] == r[f]);
                }
            }
        }
        lemma_split_excludes(p, sep, c);
        assert forall|k: int| 0 <= k < s.len() implies s[k] != c by {
            if k < p.len() {
                assert(s[k] == p[k]);
            }
        }
    }
}

} // verus!
