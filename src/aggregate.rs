use vstd::prelude::*;
use crate::fast_hash::{fast_hash, hash_of};
use crate::line_index::{find_newline, is_first_newline, lines, lemma_line_end};
use crate::record::{is_record, record_ok, split_semi, parse_temperature, key_of, value_of, temperature_value, lemma_record_splits};
use crate::small_key::StrVec;
use crate::stats::{Stat, StatV, MAX_RECORDS, add_to, record_into, aggregate, stat_ok, table_matches};

verus! {

/// Number of hash buckets of a table.
pub const NBUCKETS: usize = 1024;

/// The bucket of a key.
pub open spec fn bucket_of(k: Seq<u8>) -> int {
    (hash_of(k) % (NBUCKETS as u64)) as int
}

/// One worker's table of statistics, keyed by station name. Keys are looked
/// up by hash bucket, and a candidate counts only when its bytes match.
pub struct StationStats {
    keys: Vec<StrVec>,
    stats: Vec<Stat>,
    buckets: Vec<Vec<usize>>,
    total: u64,
    model: Ghost<Map<Seq<u8>, StatV>>,
}

impl View for StationStats {
    type V = Map<Seq<u8>, StatV>;

    closed spec fn view(&self) -> Map<Seq<u8>, StatV> {
        self.model@
    }
}

impl StationStats {
    /// The station names, in the order of first sight.
    pub closed spec fn keys_view(&self) -> Seq<Seq<u8>> {
        self.keys@.map_values(|k: StrVec| k@)
    }

    /// The statistics, position by position with `keys_view`.
    pub closed spec fn stats_view(&self) -> Seq<StatV> {
        self.stats@.map_values(|s: Stat| s@)
    }

    /// The number of readings taken in.
    pub closed spec fn records(&self) -> int {
        self.total as int
    }

    pub closed spec fn index_ok(&self) -> bool {
        &&& self.buckets@.len() == NBUCKETS
        &&& self.keys@.len() == self.stats@.len()
        &&& forall|b: int, j: int|
            0 <= b < NBUCKETS && 0 <= j < self.buckets@[b]@.len() ==> {
                let i = #[trigger] self.buckets@[b]@[j] as int;
                0 <= i < self.keys@.len() && bucket_of(self.keys@[i]@) == b
            }
        &&& forall|i: int|
            0 <= i < self.keys@.len() ==> self.buckets@[bucket_of(
                #[trigger] self.keys@[i]@,
            )]@.contains(i as usize)
    }

    pub open spec fn wf(&self) -> bool {
        &&& self.index_ok()
        &&& table_matches(self.keys_view(), self.stats_view(), self@, self.records())
    }

    /// An empty table.
    pub fn new() -> (r: StationStats)
        ensures
            r.wf(),
            r@ == Map::<Seq<u8>, StatV>::empty(),
            r.records() == 0,
    {
        let mut buckets: Vec<Vec<usize>> = Vec::with_capacity(NBUCKETS);
        let mut b: usize = 0;
        while b < NBUCKETS
            invariant
                b <= NBUCKETS,
                buckets@.len() == b,
                forall|i: int| 0 <= i < b ==> (#[trigger] buckets@[i])@.len() == 0,
            decreases NBUCKETS - b,
        {
            buckets.push(Vec::new());
            b = b + 1;
        }
        let r = StationStats {
            keys: Vec::new(),
            stats: Vec::new(),
            buckets,
            total: 0,
            model: Ghost(Map::empty()),
        };
        assert(r.keys_view().len() == 0);
        r
    }

    /// The number of readings taken in.
    pub fn total_records(&self) -> (r: u64)
        ensures
            r == self.records(),
    {
        self.total
    }

    /// The number of stations.
    pub fn len(&self) -> (r: usize)
        requires
            self.wf(),
        ensures
            r == self.keys_view().len(),
    {
        self.keys.len()
    }

    /// The name of the `i`-th station.
    pub fn key(&self, i: usize) -> (r: &[u8])
        requires
            self.wf(),
            i < self.keys_view().len(),
        ensures
            r@ == self.keys_view()[i as int],
    {
        self.keys[i].as_bytes()
    }

    /// The statistics of the `i`-th station.
    pub fn stat(&self, i: usize) -> (r: Stat)
        requires
            self.wf(),
            i < self.stats_view().len(),
        ensures
            r@ == self.stats_view()[i as int],
    {
        self.stats[i]
    }

    /// The position of station `station`, if the table holds it.
    fn find(&self, station: &[u8]) -> (r: Option<usize>)
        requires
            self.wf(),
        ensures
            match r {
                Some(i) => i < self.keys@.len() && self.keys@[i as int]@ == station@,
                None => forall|i: int| 0 <= i < self.keys@.len() ==> self.keys@[i]@ != station@,
            },
    {
        let h = fast_hash(station);
        let b = (h % (NBUCKETS as u64)) as usize;
        let bucket = &self.buckets[b];
        let mut j: usize = 0;
        while j < bucket.len()
            invariant
                self.index_ok(),
                b == bucket_of(station@),
                *bucket == self.buckets@[b as int],
                j <= bucket@.len(),
                forall|jj: int| 0 <= jj < j ==> self.keys@[bucket@[jj] as int]@ != station@,
            decreases bucket@.len() - j,
        {
            let i = bucket[j];
            assert(0 <= i < self.keys@.len() && bucket_of(self.keys@[i as int]@) == b) by {
                assert(self.buckets@[b as int]@[j as int] == i);
            }
            if self.keys[i].eq_bytes(station) {
                return Some(i);
            }
            j = j + 1;
        }
        assert forall|i: int| 0 <= i < self.keys@.len() implies self.keys@[i]@ != station@ by {
            if self.keys@[i]@ == station@ {
                assert(i < self.keys.len());
                assert(j == bucket@.len());
                assert(self.buckets@[bucket_of(self.keys@[i]@)]@.contains(i as usize));
                let jj = choose|jj: int|
                    0 <= jj < bucket@.len() && #[trigger] bucket@[jj] == i as usize;
                assert(self.keys@[bucket@[jj] as int]@ != station@);
            }
        }
        None
    }
}

/// Takes in one reading `t` of station `station`.
pub fn update_stats(stats: &mut StationStats, station: &[u8], t: i16)
    requires
        old(stats).wf(),
        old(stats).records() < MAX_RECORDS,
    ensures
        final(stats).wf(),
        final(stats)@ == record_into(old(stats)@, station@, t as int),
        final(stats).records() == old(stats).records() + 1,
{
    proof {
        assert forall|i: int| 0 <= i < stats.stats@.len() implies stat_ok(
            #[trigger] stats.stats@[i]@,
            stats.records(),
        ) by {
            assert(stats.stats_view()[i] == stats.stats@[i]@);
        }
    }
    match stats.find(station) {
        Some(i) => {
            let mut st = stats.stats[i];
            assert(stat_ok(stats.stats@[i as int]@, stats.records()));
            add_to(&mut st, t);
            stats.stats.set(i, st);
            stats.total = stats.total + 1;
            let ghost k = station@;
            proof {
                assert(stats.keys_view()[i as int] == k);
                stats.model@ = stats.model@.insert(k, st@);
            }
            assert(stats.keys_view() =~= old(stats).keys_view());
            assert forall|ii: int| 0 <= ii < stats.keys_view().len() implies stats@.contains_key(
                #[trigger] stats.keys_view()[ii],
            ) && stats@[stats.keys_view()[ii]] == stats.stats_view()[ii] by {
                if ii != i {
                    assert(old(stats).keys_view()[ii] != old(stats).keys_view()[i as int]);
                }
            }
            assert forall|kk: Seq<u8>| #[trigger]
                stats@.contains_key(kk) implies exists|ii: int|
                0 <= ii < stats.keys_view().len() && stats.keys_view()[ii] == kk by {
                if kk != k {
                    assert(old(stats)@.contains_key(kk));
                }
            }
            assert forall|ii: int| 0 <= ii < stats.stats_view().len() implies stat_ok(
                #[trigger] stats.stats_view()[ii],
                stats.records(),
            ) by {
                assert(stat_ok(old(stats).stats_view()[ii], old(stats).records()));
            }
        },
        None => {
            let n = stats.keys.len();
            let h = fast_hash(station);
            let b = (h % (NBUCKETS as u64)) as usize;
            let mut st = Stat::default();
            assert(st.count == 0);
            add_to(&mut st, t);
            let key = StrVec::new(station);
            stats.keys.push(key);
            stats.stats.push(st);
            let mut bucket = Vec::new();
            std::mem::swap(&mut bucket, &mut stats.buckets[b]);
            bucket.push(n);
            std::mem::swap(&mut bucket, &mut stats.buckets[b]);
            stats.total = stats.total + 1;
            let ghost k = station@;
            proof {
                stats.model@ = stats.model@.insert(k, st@);
            }
            assert(stats.keys_view() =~= old(stats).keys_view().push(k));
            assert(stats.stats_view() =~= old(stats).stats_view().push(st@));
            assert(!old(stats)@.contains_key(k)) by {
                if old(stats)@.contains_key(k) {
                    let ii = choose|ii: int|
                        0 <= ii < old(stats).keys_view().len() && old(stats).keys_view()[ii] == k;
                    assert(old(stats).keys@[ii]@ == k);
                }
            }
            assert forall|bb: int, j: int|
                0 <= bb < NBUCKETS && 0 <= j < stats.buckets@[bb]@.len() implies {
                let i = #[trigger] stats.buckets@[bb]@[j] as int;
                0 <= i < stats.keys@.len() && bucket_of(stats.keys@[i]@) == bb
            } by {
                if bb != b {
                    assert(stats.buckets@[bb] == old(stats).buckets@[bb]);
                    assert(old(stats).buckets@[bb]@[j] == stats.buckets@[bb]@[j]);
                } else if j < old(stats).buckets@[bb]@.len() {
                    assert(old(stats).buckets@[bb]@[j] == stats.buckets@[bb]@[j]);
                }
            }
            assert forall|i: int| 0 <= i < stats.keys@.len() implies stats.buckets@[bucket_of(
                #[trigger] stats.keys@[i]@,
            )]@.contains(i as usize) by {
                let bi = bucket_of(stats.keys@[i]@);
                if i < n {
                    assert(old(stats).keys@[i] == stats.keys@[i]);
                    assert(old(stats).buckets@[bi]@.contains(i as usize));
                    let j = choose|j: int|
                        0 <= j < old(stats).buckets@[bi]@.len() && old(stats).buckets@[bi]@[j]
                            == i as usize;
                    assert(stats.buckets@[bi]@[j] == i as usize);
                } else {
                    assert(stats.buckets@[b as int]@.last() == n);
                }
            }
            assert forall|ii: int| 0 <= ii < stats.keys_view().len() implies stats@.contains_key(
                #[trigger] stats.keys_view()[ii],
            ) && stats@[stats.keys_view()[ii]] == stats.stats_view()[ii] by {
                if ii < n {
                    assert(old(stats)@.contains_key(old(stats).keys_view()[ii]));
                }
            }
            assert forall|kk: Seq<u8>| #[trigger]
                stats@.contains_key(kk) implies exists|ii: int|
                0 <= ii < stats.keys_view().len() && stats.keys_view()[ii] == kk by {
                if kk != k {
                    assert(old(stats)@.contains_key(kk));
                    let ii = choose|ii: int|
                        0 <= ii < old(stats).keys_view().len() && old(stats).keys_view()[ii] == kk;
                    assert(stats.keys_view()[ii] == kk);
                } else {
                    assert(stats.keys_view()[n as int] == kk);
                }
            }
            assert forall|ii: int| 0 <= ii < stats.stats_view().len() implies stat_ok(
                #[trigger] stats.stats_view()[ii],
                stats.records(),
            ) by {
                if ii < n {
                    assert(stat_ok(old(stats).stats_view()[ii], old(stats).records()));
                }
            }
        },
    }
}

/// The (station, reading) record of a line.
pub open spec fn record_of(line: Seq<u8>) -> (Seq<u8>, int) {
    (key_of(line), temperature_value(value_of(line)))
}

pub open spec fn records_of(ls: Seq<Seq<u8>>) -> Seq<(Seq<u8>, int)> {
    ls.map_values(|l: Seq<u8>| record_of(l))
}

/// Every line is a record.
pub open spec fn all_records(ls: Seq<Seq<u8>>) -> bool {
    forall|i: int| 0 <= i < ls.len() ==> record_ok(#[trigger] ls[i])
}

/// Scans one chunk line by line into a fresh table. Gives `None` when some
/// line is not a record.
pub fn abra_kadabra(k: &[u8]) -> (r: Option<StationStats>)
    requires
        k@.len() <= MAX_RECORDS,
    ensures
        r is Some <==> all_records(lines(k@)),
        r matches Some(s) ==> {
            &&& s.wf()
            &&& s@ == aggregate(records_of(lines(k@)))
            &&& s.records() == lines(k@).len()
        },
{
    let mut stats = StationStats::new();
    let mut at: usize = 0;
    let ghost mut done: Seq<Seq<u8>> = seq![];
    assert(records_of(done) =~= seq![]);
    assert(k@.subrange(0, k@.len() as int) =~= k@);
    assert(done + lines(k@) =~= lines(k@));
    while at < k.len()
        invariant
            at <= k@.len() <= MAX_RECORDS,
            done + lines(k@.subrange(at as int, k@.len() as int)) == lines(k@),
            all_records(done),
            stats.wf(),
            stats@ == aggregate(records_of(done)),
            stats.records() == done.len(),
            done.len() <= at,
        decreases k@.len() - at,
    {
        let rest = &k[at..k.len()];
        let ghost rv = rest@;
        let found = find_newline(rest);
        let line_stop: usize;
        let next: usize;
        match found {
            Some(i) => {
                line_stop = at + i;
                next = at + i + 1;
                proof {
                    lemma_line_end(rv, i as int);
                    assert(rv.subrange(0, i as int) =~= k@.subrange(at as int, line_stop as int));
                    assert(rv.subrange(i + 1, rv.len() as int) =~= k@.subrange(
                        next as int,
                        k@.len() as int,
                    ));
                }
            },
            None => {
                line_stop = k.len();
                next = k.len();
                proof {
                    assert(!exists|i: int| is_first_newline(rv, i));
                    assert(rv.subrange(0, rv.len() as int) =~= rv);
                    assert(k@.subrange(next as int, k@.len() as int) =~= seq![]);
                    assert(lines(seq![]) =~= Seq::<Seq<u8>>::empty());
                }
            },
        }
        let line = &k[at..line_stop];
        assert(lines(rv) =~= seq![line@] + lines(k@.subrange(next as int, k@.len() as int)));
        assert(lines(k@)[done.len() as int] == line@) by {
            assert((done + lines(rv))[done.len() as int] == line@);
        }
        if !is_record(line) {
            return None;
        }
        proof {
            lemma_record_splits(line@);
        }
        let (station, temp) = split_semi(line);
        let t = parse_temperature(temp);
        update_stats(&mut stats, station, t);
        proof {
            let old_done = done;
            done = done.push(line@);
            assert(records_of(done).drop_last() =~= records_of(old_done));
            assert(records_of(done).last() == record_of(line@));
            assert(done + lines(k@.subrange(next as int, k@.len() as int)) =~= old_done + lines(rv));
        }
        at = next;
    }
    proof {
        assert(k@.subrange(at as int, k@.len() as int) =~= seq![]);
        assert(lines(seq![]) =~= Seq::<Seq<u8>>::empty());
        assert(done =~= done + lines(k@.subrange(at as int, k@.len() as int)));
    }
    Some(stats)
}

} // verus!
