use vstd::prelude::*;

verus! {

/// Bound on the number of readings one table may hold: with it, every sum of
/// readings fits an `i64`.
pub const MAX_RECORDS: u64 = 0x8000_0000_0000u64;

/// Running statistics of one station, readings in tenths.
#[derive(Clone, Copy)]
pub struct Stat {
    pub min: i16,
    pub max: i16,
    pub sum: i64,
    pub count: u64,
}

/// The statistics of one station as mathematical integers.
pub struct StatV {
    pub min: int,
    pub max: int,
    pub sum: int,
    pub count: int,
}

impl View for Stat {
    type V = StatV;

    open spec fn view(&self) -> StatV {
        StatV {
            min: self.min as int,
            max: self.max as int,
            sum: self.sum as int,
            count: self.count as int,
        }
    }
}

impl Default for Stat {
    /// The identity of merging: no readings yet.
    fn default() -> (r: Stat)
        ensures
            r.min == i16::MAX,
            r.max == i16::MIN,
            r.sum == 0,
            r.count == 0,
    {
        Stat { min: i16::MAX, sum: 0, count: 0, max: i16::MIN }
    }
}

pub open spec fn min_int(a: int, b: int) -> int {
    if a <= b {
        a
    } else {
        b
    }
}

pub open spec fn max_int(a: int, b: int) -> int {
    if a >= b {
        a
    } else {
        b
    }
}

/// The statistics of a single reading.
pub open spec fn single(t: int) -> StatV {
    StatV { min: t, max: t, sum: t, count: 1 }
}

/// The statistics after one more reading.
pub open spec fn add_reading(s: StatV, t: int) -> StatV {
    StatV { min: min_int(s.min, t), max: max_int(s.max, t), sum: s.sum + t, count: s.count + 1 }
}

/// The statistics of two disjoint sets of readings, combined.
pub open spec fn merge_stat(a: StatV, b: StatV) -> StatV {
    StatV {
        min: min_int(a.min, b.min),
        max: max_int(a.max, b.max),
        sum: a.sum + b.sum,
        count: a.count + b.count,
    }
}

/// A table of statistics after one more reading `t` of station `k`.
pub open spec fn record_into(m: Map<Seq<u8>, StatV>, k: Seq<u8>, t: int) -> Map<Seq<u8>, StatV> {
    if m.contains_key(k) {
        m.insert(k, add_reading(m[k], t))
    } else {
        m.insert(k, single(t))
    }
}

/// The table of statistics of a sequence of (station, reading) records.
pub open spec fn aggregate(recs: Seq<(Seq<u8>, int)>) -> Map<Seq<u8>, StatV>
    decreases recs.len(),
{
    if recs.len() == 0 {
        Map::empty()
    } else {
        let r = recs.last();
        record_into(aggregate(recs.drop_last()), r.0, r.1)
    }
}

/// Two tables combined: stations in both are merged, the others kept.
pub open spec fn merge_maps(a: Map<Seq<u8>, StatV>, b: Map<Seq<u8>, StatV>) -> Map<
    Seq<u8>,
    StatV,
> {
    Map::new(
        |k: Seq<u8>| a.contains_key(k) || b.contains_key(k),
        |k: Seq<u8>|
            if a.contains_key(k) && b.contains_key(k) {
                merge_stat(a[k], b[k])
            } else if a.contains_key(k) {
                a[k]
            } else {
                b[k]
            },
    )
}

/// The statistics of at least one and at most `total` readings.
pub open spec fn stat_ok(s: StatV, total: int) -> bool {
    &&& 1 <= s.count <= total
    &&& i16::MIN <= s.min <= s.max <= i16::MAX
    &&& i16::MIN * s.count <= s.sum <= i16::MAX * s.count
}

/// `keys` and `stats`, position by position, are the entries of `m`, with
/// each key once, and each entry holds at most `total` readings.
pub open spec fn table_matches(
    keys: Seq<Seq<u8>>,
    stats: Seq<StatV>,
    m: Map<Seq<u8>, StatV>,
    total: int,
) -> bool {
    &&& keys.len() == stats.len()
    &&& forall|i: int, j: int| 0 <= i < j < keys.len() ==> keys[i] != keys[j]
    &&& forall|i: int|
        0 <= i < keys.len() ==> m.contains_key(#[trigger] keys[i]) && m[keys[i]] == stats[i]
    &&& forall|k: Seq<u8>| #[trigger]
        m.contains_key(k) ==> exists|i: int| 0 <= i < keys.len() && keys[i] == k
    &&& forall|i: int| 0 <= i < stats.len() ==> stat_ok(#[trigger] stats[i], total)
    &&& 0 <= total <= MAX_RECORDS
}

/// Adds reading `t` to `s`.
pub fn add_to(s: &mut Stat, t: i16)
    requires
        old(s).count < MAX_RECORDS,
        i16::MIN * old(s).count <= old(s).sum <= i16::MAX * old(s).count,
    ensures
        final(s)@ == add_reading(old(s)@, t as int),
{
    if t < s.min {
        s.min = t;
    }
    if t > s.max {
        s.max = t;
    }
    s.sum = s.sum + t as i64;
    s.count = s.count + 1;
}

/// Adds the readings of `b` to `a`.
pub fn merge_into_stat(a: &mut Stat, b: Stat)
    requires
        old(a).count + b.count <= MAX_RECORDS,
        i16::MIN * old(a).count <= old(a).sum <= i16::MAX * old(a).count,
        i16::MIN * b.count <= b.sum <= i16::MAX * b.count,
    ensures
        final(a)@ == merge_stat(old(a)@, b@),
{
    if b.min < a.min {
        a.min = b.min;
    }
    if b.max > a.max {
        a.max = b.max;
    }
    a.sum = a.sum + b.sum;
    a.count = a.count + b.count;
}

/// Tables merged one after another, first to last.
pub open spec fn merge_all(ms: Seq<Map<Seq<u8>, StatV>>) -> Map<Seq<u8>, StatV>
    decreases ms.len(),
{
    if ms.len() == 0 {
        Map::empty()
    } else {
        merge_maps(ms.first(), merge_all(ms.drop_first()))
    }
}

/// Merging with an empty table changes nothing.
pub proof fn lemma_merge_empty(a: Map<Seq<u8>, StatV>)
    ensures
        merge_maps(a, Map::empty()) == a,
        merge_maps(Map::empty(), a) == a,
{
    assert(merge_maps(a, Map::empty()) =~= a);
    assert(merge_maps(Map::empty(), a) =~= a);
}

/// Taking in one more reading after a merge is merging with the table that
/// took it in.
proof fn lemma_record_into_merge(a: Map<Seq<u8>, StatV>, b: Map<Seq<u8>, StatV>, k: Seq<u8>, t: int)
    ensures
        record_into(merge_maps(a, b), k, t) == merge_maps(a, record_into(b, k, t)),
{
    assert(record_into(merge_maps(a, b), k, t) =~= merge_maps(a, record_into(b, k, t)));
}

/// Aggregating two runs of records one after the other gives the merge of
/// aggregating each run alone.
pub proof fn lemma_aggregate_append(a: Seq<(Seq<u8>, int)>, b: Seq<(Seq<u8>, int)>)
    ensures
        aggregate(a + b) == merge_maps(aggregate(a), aggregate(b)),
    decreases b.len(),
{
    if b.len() == 0 {
        assert(a + b =~= a);
        lemma_merge_empty(aggregate(a));
    } else {
        let r = b.last();
        lemma_aggregate_append(a, b.drop_last());
        assert((a + b).drop_last() =~= a + b.drop_last());
        assert((a + b).last() == r);
        lemma_record_into_merge(aggregate(a), aggregate(b.drop_last()), r.0, r.1);
    }
}

/// Cutting the records into any number of consecutive chunks, aggregating
/// each chunk on its own and merging the results gives the same statistics,
/// station by station, as aggregating all records in one pass.
pub proof fn lemma_chunked_aggregate(chunks: Seq<Seq<(Seq<u8>, int)>>)
    ensures
        aggregate(chunks.flatten()) == merge_all(
            chunks.map_values(|c: Seq<(Seq<u8>, int)>| aggregate(c)),
        ),
    decreases chunks.len(),
{
    let parts = chunks.map_values(|c: Seq<(Seq<u8>, int)>| aggregate(c));
    if chunks.len() == 0 {
        assert(aggregate(chunks.flatten()) =~= Map::empty());
    } else {
        lemma_chunked_aggregate(chunks.drop_first());
        assert(parts.drop_first() =~= chunks.drop_first().map_values(
            |c: Seq<(Seq<u8>, int)>| aggregate(c),
        ));
        lemma_aggregate_append(chunks.first(), chunks.drop_first().flatten());
    }
}

/// Merging is commutative: the order in which workers finish does not
/// change the merged table.
pub proof fn lemma_merge_commutes(a: Map<Seq<u8>, StatV>, b: Map<Seq<u8>, StatV>)
    ensures
        merge_maps(a, b) == merge_maps(b, a),
{
    assert(merge_maps(a, b) =~= merge_maps(b, a));
}

/// Merging is associative.
pub proof fn lemma_merge_associates(
    a: Map<Seq<u8>, StatV>,
    b: Map<Seq<u8>, StatV>,
    c: Map<Seq<u8>, StatV>,
)
    ensures
        merge_maps(merge_maps(a, b), c) == merge_maps(a, merge_maps(b, c)),
{
    assert(merge_maps(merge_maps(a, b), c) =~= merge_maps(a, merge_maps(b, c)));
}

} // verus!
