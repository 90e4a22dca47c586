use vstd::prelude::*;
use std::cmp::Ordering;
use crate::aggregate::StationStats;
use crate::stats::{Stat, StatV, MAX_RECORDS, merge_stat, merge_maps, stat_ok, table_matches, merge_into_stat};

verus! {

/// Lexicographic byte order: `a` comes strictly before `b`.
pub open spec fn lex_lt(a: Seq<u8>, b: Seq<u8>) -> bool
    decreases a.len(),
{
    if a.len() == 0 {
        b.len() > 0
    } else if b.len() == 0 {
        false
    } else if a[0] != b[0] {
        a[0] < b[0]
    } else {
        lex_lt(a.drop_first(), b.drop_first())
    }
}

/// Keys in strictly ascending byte order.
pub open spec fn ascending(ks: Seq<Seq<u8>>) -> bool {
    forall|i: int, j: int| 0 <= i < j < ks.len() ==> lex_lt(ks[i], ks[j])
}

pub proof fn lemma_lex_irreflexive(a: Seq<u8>)
    ensures
        !lex_lt(a, a),
    decreases a.len(),
{
    if a.len() > 0 {
        lemma_lex_irreflexive(a.drop_first());
    }
}

pub proof fn lemma_lex_transitive(a: Seq<u8>, b: Seq<u8>, c: Seq<u8>)
    requires
        lex_lt(a, b),
        lex_lt(b, c),
    ensures
        lex_lt(a, c),
    decreases a.len(),
{
    if a.len() > 0 && b.len() > 0 && c.len() > 0 && a[0] == b[0] && b[0] == c[0] {
        lemma_lex_transitive(a.drop_first(), b.drop_first(), c.drop_first());
    }
}

/// Of two distinct keys one comes first, and not both.
pub proof fn lemma_lex_total(a: Seq<u8>, b: Seq<u8>)
    ensures
        a != b ==> lex_lt(a, b) || lex_lt(b, a),
        !(lex_lt(a, b) && lex_lt(b, a)),
    decreases a.len(),
{
    if a.len() > 0 && b.len() > 0 && a[0] == b[0] {
        lemma_lex_total(a.drop_first(), b.drop_first());
        if a != b {
            assert(a =~= seq![a[0]] + a.drop_first());
            assert(b =~= seq![b[0]] + b.drop_first());
        }
    } else if a.len() == 0 && b.len() == 0 {
        assert(a =~= b);
    }
}

/// Compares two byte strings in lexicographic order.
pub fn compare_bytes(a: &[u8], b: &[u8]) -> (r: Ordering)
    ensures
        r == Ordering::Less <==> lex_lt(a@, b@),
        r == Ordering::Equal <==> a@ == b@,
        r == Ordering::Greater <==> lex_lt(b@, a@),
{
    let mut i: usize = 0;
    proof {
        assert(a@.subrange(0, a@.len() as int) =~= a@);
        assert(b@.subrange(0, b@.len() as int) =~= b@);
    }
    while i < a.len() && i < b.len() && a[i] == b[i]
        invariant
            i <= a@.len(),
            i <= b@.len(),
            a@.subrange(0, i as int) == b@.subrange(0, i as int),
            lex_lt(a@, b@) == lex_lt(a@.subrange(i as int, a@.len() as int), b@.subrange(i as int, b@.len() as int)),
            lex_lt(b@, a@) == lex_lt(b@.subrange(i as int, b@.len() as int), a@.subrange(i as int, a@.len() as int)),
        decreases a@.len() - i,
    {
        proof {
            let sa = a@.subrange(i as int, a@.len() as int);
            let sb = b@.subrange(i as int, b@.len() as int);
            assert(sa.drop_first() =~= a@.subrange(i + 1, a@.len() as int));
            assert(sb.drop_first() =~= b@.subrange(i + 1, b@.len() as int));
            assert(a@.subrange(0, i + 1) =~= a@.subrange(0, i as int).push(a@[i as int]));
            assert(b@.subrange(0, i + 1) =~= b@.subrange(0, i as int).push(b@[i as int]));
        }
        i = i + 1;
    }
    let ghost sa = a@.subrange(i as int, a@.len() as int);
    let ghost sb = b@.subrange(i as int, b@.len() as int);
    proof {
        lemma_lex_total(a@, b@);
        lemma_lex_irreflexive(a@);
    }
    if i == a.len() && i == b.len() {
        assert(a@ =~= a@.subrange(0, i as int));
        assert(b@ =~= b@.subrange(0, i as int));
        Ordering::Equal
    } else if i == a.len() {
        assert(a@ != b@ ) by { assert(a@.len() != b@.len()); }
        Ordering::Less
    } else if i == b.len() {
        assert(a@.len() != b@.len());
        Ordering::Greater
    } else if a[i] < b[i] {
        assert(a@[i as int] != b@[i as int]);
        Ordering::Less
    } else {
        assert(a@[i as int] != b@[i as int]);
        Ordering::Greater
    }
}

/// A table after merging statistics `s` under key `k`.
pub open spec fn merge_key(m: Map<Seq<u8>, StatV>, k: Seq<u8>, s: StatV) -> Map<Seq<u8>, StatV> {
    if m.contains_key(k) {
        m.insert(k, merge_stat(m[k], s))
    } else {
        m.insert(k, s)
    }
}

/// The merged result of all workers, kept in ascending key order.
pub struct ResultMap {
    keys: Vec<Vec<u8>>,
    stats: Vec<Stat>,
    total: u64,
    model: Ghost<Map<Seq<u8>, StatV>>,
}

impl View for ResultMap {
    type V = Map<Seq<u8>, StatV>;

    closed spec fn view(&self) -> Map<Seq<u8>, StatV> {
        self.model@
    }
}

impl ResultMap {
    /// The station names, in ascending order.
    pub closed spec fn keys_view(&self) -> Seq<Seq<u8>> {
        self.keys@.map_values(|k: Vec<u8>| k@)
    }

    /// The statistics, position by position with `keys_view`.
    pub closed spec fn stats_view(&self) -> Seq<StatV> {
        self.stats@.map_values(|s: Stat| s@)
    }

    /// The number of readings merged in.
    pub closed spec fn records(&self) -> int {
        self.total as int
    }

    pub open spec fn wf(&self) -> bool {
        &&& table_matches(self.keys_view(), self.stats_view(), self@, self.records())
        &&& ascending(self.keys_view())
    }

    /// An empty result.
    pub fn new() -> (r: ResultMap)
        ensures
            r.wf(),
            r@ == Map::<Seq<u8>, StatV>::empty(),
            r.records() == 0,
    {
        let r = ResultMap { keys: Vec::new(), stats: Vec::new(), total: 0, model: Ghost(Map::empty()) };
        assert(r.keys_view().len() == 0);
        r
    }

    /// The number of readings merged in.
    pub fn total_records(&self) -> (r: u64)
        ensures
            r == self.records(),
    {
        self.total
    }

    /// The number of stations.
    pub fn len(&self) -> (r: usize)
        requires
            self.wf(),
        ensures
            r == self.keys_view().len(),
    {
        self.keys.len()
    }

    /// The name of the `i`-th station in ascending order.
    pub fn key(&self, i: usize) -> (r: &[u8])
        requires
            self.wf(),
            i < self.keys_view().len(),
        ensures
            r@ == self.keys_view()[i as int],
    {
        self.keys[i].as_slice()
    }

    /// The statistics of the `i`-th station in ascending order.
    pub fn stat(&self, i: usize) -> (r: Stat)
        requires
            self.wf(),
            i < self.stats_view().len(),
        ensures
            r@ == self.stats_view()[i as int],
    {
        self.stats[i]
    }

    /// Binary search for `key`: the position where it stands, or where it
    /// would be inserted.
    fn search(&self, key: &[u8]) -> (r: (bool, usize))
        requires
            self.wf(),
        ensures
            r.1 <= self.keys_view().len(),
            forall|i: int| 0 <= i < r.1 ==> lex_lt(self.keys_view()[i], key@),
            r.0 ==> r.1 < self.keys_view().len() && self.keys_view()[r.1 as int] == key@,
            !r.0 ==> forall|i: int|
                r.1 <= i < self.keys_view().len() ==> lex_lt(key@, self.keys_view()[i]),
    {
        let ghost ks = self.keys_view();
        let mut lo: usize = 0;
        let mut hi: usize = self.keys.len();
        while lo < hi
            invariant
                self.wf(),
                ks == self.keys_view(),
                lo <= hi <= ks.len(),
                forall|i: int| 0 <= i < lo ==> lex_lt(ks[i], key@),
                forall|i: int| hi <= i < ks.len() ==> lex_lt(key@, ks[i]),
            decreases hi - lo,
        {
            let mid = lo + (hi - lo) / 2;
            let c = compare_bytes(self.keys[mid].as_slice(), key);
            assert(self.keys@[mid as int]@ == ks[mid as int]);
            match c {
                Ordering::Less => {
                    assert forall|i: int| 0 <= i <= mid implies lex_lt(ks[i], key@) by {
                        if i < mid {
                            lemma_lex_transitive(ks[i], ks[mid as int], key@);
                        }
                    }
                    lo = mid + 1;
                },
                Ordering::Equal => {
                    return (true, mid);
                },
                Ordering::Greater => {
                    assert forall|i: int| mid <= i < ks.len() implies lex_lt(key@, ks[i]) by {
                        if i > mid {
                            lemma_lex_transitive(key@, ks[mid as int], ks[i]);
                        }
                    }
                    hi = mid;
                },
            }
        }
        (false, lo)
    }

    /// Merges statistics `st` into the entry of `key`, creating it if absent.
    fn insert_or_merge(&mut self, key: &[u8], st: Stat)
        requires
            old(self).wf(),
            stat_ok(st@, old(self).records()),
            old(self)@.contains_key(key@) ==> old(self)@[key@].count + st@.count <= old(
                self,
            ).records(),
        ensures
            final(self).wf(),
            final(self)@ == merge_key(old(self)@, key@, st@),
            final(self).records() == old(self).records(),
    {
        let ghost ks = self.keys_view();
        let ghost ss = self.stats_view();
        let ghost total = self.records();
        let (found, pos) = self.search(key);
        if found {
            let mut cur = self.stats[pos];
            assert(cur@ == ss[pos as int]);
            assert(stat_ok(cur@, total));
            merge_into_stat(&mut cur, st);
            self.stats.set(pos, cur);
            proof {
                self.model@ = self.model@.insert(key@, cur@);
                assert(self.keys_view() =~= ks);
                assert(self.stats_view() =~= ss.update(pos as int, cur@));
                assert forall|i: int| 0 <= i < ks.len() implies self@.contains_key(
                    #[trigger] ks[i],
                ) && self@[ks[i]] == self.stats_view()[i] by {
                    if i != pos {
                        assert(ks[i] != ks[pos as int]);
                    }
                }
                assert forall|k: Seq<u8>| #[trigger] self@.contains_key(k) implies exists|i: int|
                    0 <= i < ks.len() && ks[i] == k by {
                    if k != key@ {
                        assert(old(self)@.contains_key(k));
                    }
                }
                assert forall|i: int| 0 <= i < ks.len() implies stat_ok(
                    #[trigger] self.stats_view()[i],
                    total,
                ) by {
                    if i != pos {
                        assert(stat_ok(ss[i], total));
                    }
                }
            }
        } else {
            proof {
                if old(self)@.contains_key(key@) {
                    let i = choose|i: int| 0 <= i < ks.len() && ks[i] == key@;
                    lemma_lex_irreflexive(key@);
                    if i >= pos {
                        assert(lex_lt(key@, ks[i]));
                    } else {
                        assert(lex_lt(ks[i], key@));
                    }
                }
            }
            let owned = vstd::slice::slice_to_vec(key);
            self.keys.insert(pos, owned);
            self.stats.insert(pos, st);
            proof {
                self.model@ = self.model@.insert(key@, st@);
                let nks = self.keys_view();
                assert(nks =~= ks.insert(pos as int, key@));
                assert(self.stats_view() =~= ss.insert(pos as int, st@));
                assert forall|i: int, j: int| 0 <= i < j < nks.len() implies lex_lt(
                    nks[i],
                    nks[j],
                ) by {
                    if j < pos {
                    } else if j == pos {
                    } else if i < pos {
                        lemma_lex_transitive(ks[i], key@, ks[j - 1]);
                    } else if i == pos {
                    } else {
                    }
                }
                assert forall|i: int, j: int| 0 <= i < j < nks.len() implies nks[i] != nks[j] by {
                    lemma_lex_irreflexive(nks[i]);
                }
                assert forall|i: int| 0 <= i < nks.len() implies self@.contains_key(
                    #[trigger] nks[i],
                ) && self@[nks[i]] == self.stats_view()[i] by {
                    if i < pos {
                        assert(nks[i] == ks[i]);
                        assert(nks[i] != key@);
                    } else if i > pos {
                        assert(nks[i] == ks[i - 1]);
                        assert(nks[i] != key@);
                    }
                }
                assert forall|k: Seq<u8>| #[trigger] self@.contains_key(k) implies exists|i: int|
                    0 <= i < nks.len() && nks[i] == k by {
                    if k != key@ {
                        assert(old(self)@.contains_key(k));
                        let i = choose|i: int| 0 <= i < ks.len() && ks[i] == k;
                        if i < pos {
                            assert(nks[i] == k);
                        } else {
                            assert(nks[i + 1] == k);
                        }
                    } else {
                        assert(nks[pos as int] == k);
                    }
                }
                assert forall|i: int| 0 <= i < nks.len() implies stat_ok(
                    #[trigger] self.stats_view()[i],
                    total,
                ) by {
                    if i < pos {
                        assert(stat_ok(ss[i], total));
                    } else if i > pos {
                        assert(stat_ok(ss[i - 1], total));
                    }
                }
            }
        }
    }

    /// Merges one worker's table into the result.
    pub fn merge_from(&mut self, part: &StationStats)
        requires
            old(self).wf(),
            part.wf(),
            old(self).records() + part.records() <= MAX_RECORDS,
        ensures
            final(self).wf(),
            final(self)@ == merge_maps(old(self)@, part@),
            final(self).records() == old(self).records() + part.records(),
    {
        let ghost r0 = self@;
        let ghost t0 = self.records();
        let ghost pk = part.keys_view();
        let ghost ps = part.stats_view();
        self.total = self.total + part.total_records();
        let ghost total = self.records();
        assert forall|i: int| 0 <= i < self.stats_view().len() implies stat_ok(
            #[trigger] self.stats_view()[i],
            total,
        ) by {
            assert(stat_ok(old(self).stats_view()[i], t0));
        }
        assert(part@.restrict(pk.subrange(0, 0).to_set()) =~= Map::empty());
        assert(merge_maps(r0, Map::empty()) =~= r0);
        let n = part.len();
        let mut i: usize = 0;
        while i < n
            invariant
                n == pk.len(),
                i <= n,
                pk == part.keys_view(),
                ps == part.stats_view(),
                part.wf(),
                self.wf(),
                self.records() == total,
                total == t0 + part.records(),
                0 <= t0,
                forall|k: Seq<u8>| #[trigger]
                    r0.contains_key(k) ==> stat_ok(r0[k], t0),
                self@ == merge_maps(r0, part@.restrict(pk.subrange(0, i as int).to_set())),
            decreases n - i,
        {
            let key = part.key(i);
            let st = part.stat(i);
            let ghost before = pk.subrange(0, i as int).to_set();
            assert(!before.contains(key@)) by {
                if before.contains(key@) {
                    let j = choose|j: int| 0 <= j < i && pk.subrange(0, i as int)[j] == key@;
                    assert(pk[j] == pk[i as int]);
                }
            }
            assert(stat_ok(st@, part.records()));
            assert(stat_ok(st@, total));
            proof {
                if self@.contains_key(key@) {
                    assert(r0.contains_key(key@));
                    assert(self@[key@] == r0[key@]);
                    assert(stat_ok(r0[key@], t0));
                }
            }
            self.insert_or_merge(key, st);
            proof {
                let after = pk.subrange(0, i + 1).to_set();
                assert(pk.subrange(0, i + 1) =~= pk.subrange(0, i as int).push(key@));
                pk.subrange(0, i as int).lemma_push_to_set_commute(key@);
                assert(after =~= before.insert(key@));
                assert(merge_maps(r0, part@.restrict(after)) =~= merge_key(
                    merge_maps(r0, part@.restrict(before)),
                    key@,
                    st@,
                ));
            }
            i = i + 1;
        }
        proof {
            let all = pk.subrange(0, n as int).to_set();
            assert(pk.subrange(0, n as int) =~= pk);
            assert forall|k: Seq<u8>| part@.contains_key(k) implies all.contains(k) by {
                let j = choose|j: int| 0 <= j < pk.len() && pk[j] == k;
                assert(pk.subrange(0, n as int)[j] == k);
            }
            assert(part@.restrict(all) =~= part@);
        }
    }
}

/// Two ascending sequences with the same members are the same sequence.
proof fn lemma_ascending_unique(x: Seq<Seq<u8>>, y: Seq<Seq<u8>>)
    requires
        ascending(x),
        ascending(y),
        forall|k: Seq<u8>| x.contains(k) <==> y.contains(k),
    ensures
        x == y,
    decreases x.len(),
{
    if x.len() == 0 {
        if y.len() > 0 {
            assert(y.contains(y[0]));
        }
        assert(x =~= y);
    } else if y.len() == 0 {
        assert(x.contains(x[0]));
    } else {
        if x[0] != y[0] {
            assert(y.contains(x[0]));
            assert(x.contains(y[0]));
            let j = choose|j: int| 0 <= j < y.len() && y[j] == x[0];
            let i = choose|i: int| 0 <= i < x.len() && x[i] == y[0];
            assert(lex_lt(y[0], x[0]));
            assert(lex_lt(x[0], y[0]));
            lemma_lex_total(x[0], y[0]);
        }
        let xs = x.drop_first();
        let ys = y.drop_first();
        assert forall|k: Seq<u8>| xs.contains(k) implies ys.contains(k) by {
            let i = choose|i: int| 0 <= i < xs.len() && xs[i] == k;
            assert(lex_lt(x[0], x[i + 1]));
            lemma_lex_irreflexive(x[0]);
            assert(y.contains(k));
            let j = choose|j: int| 0 <= j < y.len() && y[j] == k;
            assert(j != 0);
            assert(ys[j - 1] == k);
        }
        assert forall|k: Seq<u8>| ys.contains(k) implies xs.contains(k) by {
            let j = choose|j: int| 0 <= j < ys.len() && ys[j] == k;
            assert(lex_lt(y[0], y[j + 1]));
            lemma_lex_irreflexive(y[0]);
            assert(x.contains(k));
            let i = choose|i: int| 0 <= i < x.len() && x[i] == k;
            assert(i != 0);
            assert(xs[i - 1] == k);
        }
        lemma_ascending_unique(xs, ys);
        assert(x =~= seq![x[0]] + xs);
        assert(y =~= seq![y[0]] + ys);
    }
}

/// A merged result is laid out by its contents alone: two results that hold
/// the same statistics list the same stations in the same ascending order,
/// whatever order the workers' tables were merged in.
pub proof fn lemma_rows_determined(a: &ResultMap, b: &ResultMap)
    requires
        a.wf(),
        b.wf(),
        a@ == b@,
    ensures
        a.keys_view() == b.keys_view(),
        a.stats_view() == b.stats_view(),
{
    let ka = a.keys_view();
    let kb = b.keys_view();
    assert forall|k: Seq<u8>| ka.contains(k) <==> kb.contains(k) by {
        if ka.contains(k) {
            let i = choose|i: int| 0 <= i < ka.len() && ka[i] == k;
            assert(a@.contains_key(ka[i]));
        }
        if kb.contains(k) {
            let i = choose|i: int| 0 <= i < kb.len() && kb[i] == k;
            assert(b@.contains_key(kb[i]));
        }
    }
    lemma_ascending_unique(ka, kb);
    assert forall|i: int| 0 <= i < ka.len() implies a.stats_view()[i] == b.stats_view()[i] by {
        assert(a@.contains_key(ka[i]));
        assert(b@.contains_key(kb[i]));
    }
    assert(a.stats_view() =~= b.stats_view());
}

} // verus!
