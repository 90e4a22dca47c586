use vstd::prelude::*;
use crate::merge::ResultMap;
use crate::record::{ZERO, MINUS, DOT};
use crate::stats::{Stat, StatV, MAX_RECORDS, stat_ok};

verus! {

pub const OPEN: u8 = 123u8;

pub const CLOSE: u8 = 125u8;

pub const EQUALS: u8 = 61u8;

pub const SLASH: u8 = 47u8;

pub const COMMA: u8 = 44u8;

pub const SPACE: u8 = 32u8;

/// The decimal digits of `n`, without leading zeros.
pub open spec fn digits(n: nat) -> Seq<u8>
    decreases n,
{
    if n < 10 {
        seq![(ZERO + n) as u8]
    } else {
        digits(n / 10) + seq![(ZERO + n % 10) as u8]
    }
}

pub open spec fn abs(v: int) -> nat {
    if v < 0 {
        (-v) as nat
    } else {
        v as nat
    }
}

/// A value in tenths written with one fractional digit, `-` before a
/// negative value.
pub open spec fn tenths_text(v: int) -> Seq<u8> {
    let sign = if v < 0 {
        seq![MINUS]
    } else {
        seq![]
    };
    sign + digits(abs(v) / 10) + seq![DOT, (ZERO + abs(v) % 10) as u8]
}

/// `a / c` rounded to the nearest integer, ties to the even one.
pub open spec fn round_div(a: nat, c: nat) -> nat
    recommends
        c > 0,
{
    let q = a / c;
    let r = a % c;
    if 2 * r > c || (2 * r == c && q % 2 == 1) {
        q + 1
    } else {
        q
    }
}

/// The mean of a station's readings in tenths, rounded to the nearest tenth
/// with ties to even; the sign is kept apart, so rounding is symmetric.
pub open spec fn mean_tenths(s: StatV) -> int {
    if s.sum < 0 {
        -round_div((-s.sum) as nat, s.count as nat)
    } else {
        round_div(s.sum as nat, s.count as nat) as int
    }
}

/// `key=min/mean/max` for one station.
pub open spec fn entry_text(k: Seq<u8>, s: StatV) -> Seq<u8> {
    k + seq![EQUALS] + tenths_text(s.min) + seq![SLASH] + tenths_text(mean_tenths(s)) + seq![SLASH]
        + tenths_text(s.max)
}

/// The first `n` entries, separated by `, `.
pub open spec fn body_text(ks: Seq<Seq<u8>>, ss: Seq<StatV>, n: int) -> Seq<u8>
    decreases n,
{
    if n <= 0 {
        seq![]
    } else if n == 1 {
        entry_text(ks[0], ss[0])
    } else {
        body_text(ks, ss, n - 1) + seq![COMMA, SPACE] + entry_text(ks[n - 1], ss[n - 1])
    }
}

/// The whole summary: `{` entries `}`.
pub open spec fn render(ks: Seq<Seq<u8>>, ss: Seq<StatV>) -> Seq<u8> {
    seq![OPEN] + body_text(ks, ss, ks.len() as int) + seq![CLOSE]
}

/// Appends the decimal digits of `n`.
pub fn push_digits(out: &mut Vec<u8>, n: u64)
    ensures
        final(out)@ == old(out)@ + digits(n as nat),
    decreases n,
{
    if n >= 10 {
        push_digits(out, n / 10);
    }
    out.push((ZERO as u64 + n % 10) as u8);
    assert(out@ =~= old(out)@ + digits(n as nat));
}

/// Appends a value in tenths with one fractional digit.
pub fn push_tenths(out: &mut Vec<u8>, v: i64)
    requires
        v > i64::MIN,
    ensures
        final(out)@ == old(out)@ + tenths_text(v as int),
{
    let ghost start = out@;
    let m: u64 = if v < 0 {
        out.push(MINUS);
        (-v) as u64
    } else {
        v as u64
    };
    push_digits(out, m / 10);
    out.push(DOT);
    out.push((ZERO as u64 + m % 10) as u8);
    assert(out@ =~= start + tenths_text(v as int));
}

/// The rounded mean of one station's readings, in tenths.
pub fn mean_of(s: Stat) -> (r: i64)
    requires
        stat_ok(s@, MAX_RECORDS as int),
    ensures
        r == mean_tenths(s@),
{
    assert(-0x8000 * MAX_RECORDS <= s.sum <= 0x8000 * MAX_RECORDS) by (nonlinear_arith)
        requires
            -0x8000 * s.count <= s.sum <= 0x7fff * s.count,
            s.count <= MAX_RECORDS,
    ;
    let neg = s.sum < 0;
    let a: u64 = if neg {
        (-s.sum) as u64
    } else {
        s.sum as u64
    };
    let c = s.count;
    let q = a / c;
    let rem = a % c;
    let rounded = if 2 * rem > c || (2 * rem == c && q % 2 == 1) {
        q + 1
    } else {
        q
    };
    assert(q <= a) by (nonlinear_arith)
        requires
            q == a / c,
            c >= 1,
    ;
    if neg {
        -(rounded as i64)
    } else {
        rounded as i64
    }
}

/// Appends `key=min/mean/max` for one station.
pub fn push_entry(out: &mut Vec<u8>, key: &[u8], s: Stat)
    requires
        stat_ok(s@, MAX_RECORDS as int),
    ensures
        final(out)@ == old(out)@ + entry_text(key@, s@),
{
    let ghost start = out@;
    let mut i: usize = 0;
    while i < key.len()
        invariant
            i <= key@.len(),
            out@ == start + key@.subrange(0, i as int),
        decreases key@.len() - i,
    {
        out.push(key[i]);
        i = i + 1;
        assert(out@ =~= start + key@.subrange(0, i as int));
    }
    assert(key@.subrange(0, key@.len() as int) =~= key@);
    out.push(EQUALS);
    push_tenths(out, s.min as i64);
    out.push(SLASH);
    let mean = mean_of(s);
    push_tenths(out, mean);
    out.push(SLASH);
    push_tenths(out, s.max as i64);
    assert(out@ =~= start + entry_text(key@, s@));
}

/// Renders the merged result as `{key=min/mean/max, ...}` in ascending key order.
pub fn format_summary(result: &ResultMap) -> (r: Vec<u8>)
    requires
        result.wf(),
    ensures
        r@ == render(result.keys_view(), result.stats_view()),
{
    let ghost ks = result.keys_view();
    let ghost ss = result.stats_view();
    let mut out: Vec<u8> = Vec::new();
    out.push(OPEN);
    let n = result.len();
    let mut i: usize = 0;
    while i < n
        invariant
            result.wf(),
            n == ks.len(),
            ks == result.keys_view(),
            ss == result.stats_view(),
            i <= n,
            out@ == seq![OPEN] + body_text(ks, ss, i as int),
        decreases n - i,
    {
        if i > 0 {
            out.push(COMMA);
            out.push(SPACE);
        }
        let s = result.stat(i);
        assert(stat_ok(ss[i as int], result.records()));
        push_entry(&mut out, result.key(i), s);
        assert(out@ =~= seq![OPEN] + body_text(ks, ss, i + 1));
        i = i + 1;
    }
    out.push(CLOSE);
    out
}

} // verus!
