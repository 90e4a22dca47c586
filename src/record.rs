use vstd::prelude::*;

verus! {

pub const SEMI: u8 = 59u8;

pub const MINUS: u8 = 45u8;

pub const DOT: u8 = 46u8;

pub const ZERO: u8 = 48u8;

pub open spec fn is_digit(c: u8) -> bool {
    ZERO <= c <= ZERO + 9
}

pub open spec fn digit(c: u8) -> int {
    c - ZERO
}

/// Number of leading sign bytes of a reading.
pub open spec fn sign_len(v: Seq<u8>) -> int {
    if v.len() > 0 && v[0] == MINUS {
        1
    } else {
        0
    }
}

/// `v` is a reading: an optional `-`, one or two digits, a dot, one digit.
pub open spec fn temperature_ok(v: Seq<u8>) -> bool {
    let skip = sign_len(v);
    let n = v.len() - skip;
    &&& n == 3 || n == 4
    &&& is_digit(v[skip])
    &&& n == 4 ==> is_digit(v[skip + 1])
    &&& v[v.len() - 2] == DOT
    &&& is_digit(v[v.len() - 1])
}

/// The reading `v` in tenths, as ordinary decimal notation reads it.
pub open spec fn temperature_value(v: Seq<u8>) -> int {
    let skip = sign_len(v);
    let whole = if v.len() - skip == 4 {
        10 * digit(v[skip]) + digit(v[skip + 1])
    } else {
        digit(v[skip])
    };
    let magnitude = 10 * whole + digit(v[v.len() - 1]);
    if skip == 1 {
        -magnitude
    } else {
        magnitude
    }
}

/// Converts a reading to tenths, with the sign and the number of integer
/// digits folded into multipliers rather than branches.
pub fn parse_temperature(k: &[u8]) -> (r: i16)
    requires
        temperature_ok(k@),
    ensures
        r == temperature_value(k@),
        -999 <= r <= 999,
{
    let tlen = k.len();
    let isneg = k[0] == MINUS;
    let sign: i16 = if isneg { -1 } else { 1 };
    let skip: usize = if isneg { 1 } else { 0 };
    let isdd: i16 = if tlen - skip == 4 { 1 } else { 0 };
    let mul: i16 = isdd * 90 + 10;
    let d1: i16 = (k[skip] - ZERO) as i16;
    let d2: i16 = (k[tlen - 3] - ZERO) as i16;
    let t3: i16 = (k[tlen - 1] - ZERO) as i16;
    assert(0 <= mul * d1 <= 900) by (nonlinear_arith)
        requires
            mul == 10 || mul == 100,
            0 <= d1 <= 9,
    ;
    assert(isdd * 10 * d2 == if isdd == 1 { 10 * d2 } else { 0 }) by (nonlinear_arith)
        requires
            isdd == 0 || isdd == 1,
    ;
    let t1: i16 = mul * d1;
    let t2: i16 = isdd * 10 * d2;
    proof {
        if isdd == 1 {
            assert(t1 == 100 * d1);
        } else {
            assert(t1 == 10 * d1);
        }
    }
    sign * (t1 + t2 + t3)
}

/// Checks that `k` is a reading.
pub fn is_temperature(k: &[u8]) -> (r: bool)
    ensures
        r == temperature_ok(k@),
{
    let len = k.len();
    let skip: usize = if len > 0 && k[0] == MINUS { 1 } else { 0 };
    if len < skip + 3 || len > skip + 4 {
        return false;
    }
    let d0 = k[skip];
    let d1 = k[skip + 1];
    let ok_first = ZERO <= d0 && d0 <= ZERO + 9;
    let ok_second = len - skip == 3 || (ZERO <= d1 && d1 <= ZERO + 9);
    let last = k[len - 1];
    ok_first && ok_second && k[len - 2] == DOT && ZERO <= last && last <= ZERO + 9
}

/// `p` is the position of the last separator in `line`.
pub open spec fn is_last_separator(line: Seq<u8>, p: int) -> bool {
    &&& 0 <= p < line.len()
    &&& line[p] == SEMI
    &&& forall|j: int| p < j < line.len() ==> line[j] != SEMI
}

pub open spec fn has_separator(line: Seq<u8>) -> bool {
    exists|p: int| is_last_separator(line, p)
}

/// Position of the last separator of a line that has one.
pub open spec fn separator_pos(line: Seq<u8>) -> int
    recommends
        has_separator(line),
{
    choose|p: int| is_last_separator(line, p)
}

/// The station name of a line: everything before its last separator.
pub open spec fn key_of(line: Seq<u8>) -> Seq<u8> {
    line.subrange(0, separator_pos(line))
}

/// The reading of a line: everything after its last separator.
pub open spec fn value_of(line: Seq<u8>) -> Seq<u8> {
    line.subrange(separator_pos(line) + 1, line.len() as int)
}

/// `line` is a record: a name, a separator, a reading.
pub open spec fn record_ok(line: Seq<u8>) -> bool {
    has_separator(line) && temperature_ok(value_of(line))
}

/// The last separator of a line is unique.
pub proof fn lemma_separator_unique(line: Seq<u8>, p: int)
    requires
        is_last_separator(line, p),
    ensures
        has_separator(line),
        separator_pos(line) == p,
{
    let q = separator_pos(line);
    assert(is_last_separator(line, q));
}

/// Splits a line at its last separator, which is sought backwards from four
/// bytes before the end since a reading is at least three bytes long.
pub fn split_semi(k: &[u8]) -> (r: (&[u8], &[u8]))
    requires
        k@.len() >= 4,
        exists|p: int| p <= k@.len() - 4 && is_last_separator(k@, p),
    ensures
        r.0@ == key_of(k@),
        r.1@ == value_of(k@),
{
    let ghost p = choose|p: int| p <= k@.len() - 4 && is_last_separator(k@, p);
    proof {
        lemma_separator_unique(k@, p);
    }
    let mut pos: usize = k.len() - 4;
    while k[pos] != SEMI
        invariant
            p <= pos < k@.len(),
            is_last_separator(k@, p),
        decreases pos,
    {
        pos = pos - 1;
    }
    assert(pos == p);
    let (before, after) = k.split_at(pos + 1);
    (&before[0..before.len() - 1], after)
}

/// Checks that `line` is a record.
pub fn is_record(line: &[u8]) -> (r: bool)
    ensures
        r == record_ok(line@),
{
    let mut i: usize = line.len();
    while i > 0
        invariant
            i <= line@.len(),
            forall|j: int| i <= j < line@.len() ==> line@[j] != SEMI,
        decreases i,
    {
        if line[i - 1] == SEMI {
            proof {
                lemma_separator_unique(line@, i - 1);
            }
            let value = &line[i..line.len()];
            return is_temperature(value);
        }
        i = i - 1;
    }
    assert(!has_separator(line@));
    false
}

/// A record's separator leaves room for the shortest reading after it.
pub proof fn lemma_record_splits(line: Seq<u8>)
    requires
        record_ok(line),
    ensures
        line.len() >= 4,
        exists|p: int| p <= line.len() - 4 && is_last_separator(line, p),
{
    let p = separator_pos(line);
    assert(is_last_separator(line, p));
}

} // verus!
