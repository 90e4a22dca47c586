use vstd::prelude::*;
use crate::aggregate::records_of;
use crate::line_index::{
    find_newline, is_first_newline, line_end, lemma_line_end, lemma_lines_split, lines, NEWLINE,
};
use crate::stats::{aggregate, merge_all, lemma_chunked_aggregate};

verus! {

/// Where a chunk whose nominal end is `e` really ends: just past the first
/// line terminator at or after `e`, or at the end of the buffer.
pub open spec fn next_boundary(b: Seq<u8>, e: int) -> int {
    if e >= b.len() {
        b.len() as int
    } else {
        let rest = b.subrange(e, b.len() as int);
        let le = line_end(rest);
        if le < rest.len() {
            e + le + 1
        } else {
            b.len() as int
        }
    }
}

/// `cs` are consecutive ranges `[start, end)` from 0 to `len`.
pub open spec fn contiguous(cs: Seq<(usize, usize)>, len: int) -> bool {
    &&& cs.len() >= 1
    &&& cs[0].0 == 0
    &&& cs.last().1 == len
    &&& forall|i: int| 0 <= i < cs.len() ==> #[trigger] cs[i].0 <= cs[i].1
    &&& forall|i: int| 0 <= i < cs.len() - 1 ==> #[trigger] cs[i].1 == cs[i + 1].0
}

/// Every boundary inside the buffer falls just after a line terminator.
pub open spec fn line_aligned(b: Seq<u8>, cs: Seq<(usize, usize)>) -> bool {
    forall|i: int|
        0 <= i < cs.len() && 0 < #[trigger] cs[i].1 < b.len() ==> b[cs[i].1 - 1] == NEWLINE
}

/// Cuts `buf` into `n` line-aligned ranges, one per worker. Each range but
/// the last runs from where the previous one ended to the first line end at
/// or after its nominal length `buf.len() / n`; the last one runs to the end.
pub fn plan_chunks(buf: &[u8], n: usize) -> (r: Vec<(usize, usize)>)
    requires
        n >= 1,
    ensures
        r@.len() == n,
        contiguous(r@, buf@.len() as int),
        line_aligned(buf@, r@),
        forall|i: int|
            0 <= i < n - 1 ==> #[trigger] r@[i].1 == next_boundary(
                buf@,
                r@[i].0 + (buf@.len() as int) / (n as int),
            ),
{
    let len = buf.len();
    let chunk_len = len / n;
    let mut r: Vec<(usize, usize)> = Vec::with_capacity(n);
    let mut at: usize = 0;
    let mut t: usize = 0;
    while t < n
        invariant
            t <= n,
            len == buf@.len(),
            chunk_len as int == (len as int) / (n as int),
            r@.len() == t,
            at <= len,
            t == 0 ==> at == 0,
            t > 0 ==> r@[0].0 == 0 && r@[t - 1].1 == at,
            t == n ==> at == len,
            forall|i: int| 0 <= i < t ==> #[trigger] r@[i].0 <= r@[i].1 <= len,
            forall|i: int| 0 <= i < t - 1 ==> #[trigger] r@[i].1 == r@[i + 1].0,
            forall|i: int|
                0 <= i < t && i < n - 1 ==> #[trigger] r@[i].1 == next_boundary(
                    buf@,
                    r@[i].0 + chunk_len,
                ),
            line_aligned(buf@, r@),
        decreases n - t,
    {
        let start = at;
        let end: usize;
        if t == n - 1 {
            end = len;
        } else {
            let e = if chunk_len >= len - at {
                len
            } else {
                at + chunk_len
            };
            if e == len {
                end = len;
            } else {
                let rest = &buf[e..len];
                match find_newline(rest) {
                    Some(i) => {
                        proof {
                            lemma_line_end(rest@, i as int);
                        }
                        end = e + i + 1;
                    },
                    None => {
                        assert(!exists|i: int| is_first_newline(rest@, i));
                        end = len;
                    },
                }
            }
            assert(end == next_boundary(buf@, start + chunk_len));
        }
        r.push((start, end));
        at = end;
        t = t + 1;
    }
    assert(r@.last() == r@[n - 1]);
    r
}

/// Position `p` lies in range `i` of `cs`.
pub open spec fn in_chunk(cs: Seq<(usize, usize)>, i: int, p: int) -> bool {
    cs[i].0 <= p < cs[i].1
}

/// Contiguous ranges cover every position of the buffer exactly once.
pub proof fn lemma_partition(cs: Seq<(usize, usize)>, len: int, p: int)
    requires
        contiguous(cs, len),
        0 <= p < len,
    ensures
        exists|i: int| 0 <= i < cs.len() && #[trigger] in_chunk(cs, i, p),
        forall|i: int, j: int|
            0 <= i < cs.len() && 0 <= j < cs.len() && #[trigger] in_chunk(cs, i, p)
                && #[trigger] in_chunk(cs, j, p) ==> i == j,
{
    lemma_covered(cs, len, p, cs.len() - 1);
    assert forall|i: int, j: int|
        0 <= i < cs.len() && 0 <= j < cs.len() && #[trigger] in_chunk(cs, i, p)
            && #[trigger] in_chunk(cs, j, p) implies i == j by {
        if i < j {
            lemma_ordered(cs, len, i, j);
        } else if j < i {
            lemma_ordered(cs, len, j, i);
        }
    }
}

proof fn lemma_covered(cs: Seq<(usize, usize)>, len: int, p: int, k: int)
    requires
        contiguous(cs, len),
        0 <= k < cs.len(),
        0 <= p < cs[k].1,
    ensures
        exists|i: int| 0 <= i <= k && #[trigger] in_chunk(cs, i, p),
    decreases k,
{
    if p < cs[k].0 {
        lemma_covered(cs, len, p, k - 1);
    } else {
        assert(in_chunk(cs, k, p));
    }
}

proof fn lemma_ordered(cs: Seq<(usize, usize)>, len: int, i: int, j: int)
    requires
        contiguous(cs, len),
        0 <= i < j < cs.len(),
    ensures
        cs[i].1 <= cs[j].0,
    decreases j - i,
{
    if j > i + 1 {
        lemma_ordered(cs, len, i + 1, j);
        assert(cs[i + 1].0 <= cs[i + 1].1);
    }
}

/// The lines of each range of `cs` over `b`.
pub open spec fn chunk_lines(b: Seq<u8>, cs: Seq<(usize, usize)>) -> Seq<Seq<Seq<u8>>> {
    Seq::new(cs.len(), |i: int| lines(b.subrange(cs[i].0 as int, cs[i].1 as int)))
}

proof fn lemma_suffix_lines(b: Seq<u8>, cs: Seq<(usize, usize)>, k: int)
    requires
        contiguous(cs, b.len() as int),
        line_aligned(b, cs),
        0 <= k < cs.len(),
    ensures
        lines(b.subrange(cs[k].0 as int, b.len() as int)) == chunk_lines(b, cs).subrange(
            k,
            cs.len() as int,
        ).flatten(),
    decreases cs.len() - k,
{
    let n = cs.len() as int;
    let cl = chunk_lines(b, cs);
    let tail = cl.subrange(k, n);
    let start = cs[k].0 as int;
    let stop = cs[k].1 as int;
    let sub = b.subrange(start, b.len() as int);
    assert(cs[k].0 <= cs[k].1);
    lemma_ordered_bounded(cs, b.len() as int, k);
    assert(tail.drop_first() =~= cl.subrange(k + 1, n));
    assert(sub.subrange(0, stop - start) =~= b.subrange(start, stop));
    if k == n - 1 {
        assert(stop == b.len());
        assert(cl.subrange(k + 1, n) =~= Seq::<Seq<Seq<u8>>>::empty());
        assert(b.subrange(start, stop) =~= sub);
        assert(tail.first() == cl[k]);
        assert(tail.drop_first().flatten() =~= Seq::<Seq<u8>>::empty());
        assert(cl[k] == lines(sub));
        assert(lines(sub) =~= tail.flatten());
    } else {
        lemma_suffix_lines(b, cs, k + 1);
        assert(cs[k].1 == cs[k + 1].0);
        if stop < b.len() {
            if stop > 0 && stop - start > 0 {
                assert(b[stop - 1] == NEWLINE);
            }
            lemma_lines_split(sub, stop - start);
            assert(sub.subrange(stop - start, sub.len() as int) =~= b.subrange(stop, b.len() as int));
        } else {
            assert(sub.subrange(0, stop - start) =~= sub);
            let rest = b.subrange(stop, b.len() as int);
            assert(rest =~= Seq::<u8>::empty());
            assert(lines(rest) =~= Seq::<Seq<u8>>::empty());
            assert(lines(sub) =~= lines(sub) + lines(rest));
        }
    }
}

proof fn lemma_ordered_bounded(cs: Seq<(usize, usize)>, len: int, k: int)
    requires
        contiguous(cs, len),
        0 <= k < cs.len(),
    ensures
        cs[k].1 <= len,
    decreases cs.len() - k,
{
    if k < cs.len() - 1 {
        lemma_ordered_bounded(cs, len, k + 1);
        assert(cs[k + 1].0 <= cs[k + 1].1);
    }
}

/// The lines of a buffer are the lines of its ranges, in order, when the
/// ranges are contiguous and cut only after line terminators.
pub proof fn lemma_lines_of_chunks(b: Seq<u8>, cs: Seq<(usize, usize)>)
    requires
        contiguous(cs, b.len() as int),
        line_aligned(b, cs),
    ensures
        lines(b) == chunk_lines(b, cs).flatten(),
{
    lemma_suffix_lines(b, cs, 0);
    assert(b.subrange(0, b.len() as int) =~= b);
    assert(chunk_lines(b, cs).subrange(0, cs.len() as int) =~= chunk_lines(b, cs));
}

proof fn lemma_records_flatten(xs: Seq<Seq<Seq<u8>>>)
    ensures
        records_of(xs.flatten()) == Seq::new(xs.len(), |i: int| records_of(xs[i])).flatten(),
    decreases xs.len(),
{
    let rs = Seq::new(xs.len(), |i: int| records_of(xs[i]));
    if xs.len() == 0 {
        assert(records_of(xs.flatten()) =~= rs.flatten());
    } else {
        lemma_records_flatten(xs.drop_first());
        assert(rs.drop_first() =~= Seq::new(
            xs.drop_first().len(),
            |i: int| records_of(xs.drop_first()[i]),
        ));
        assert(records_of(xs.first() + xs.drop_first().flatten()) =~= records_of(xs.first())
            + records_of(xs.drop_first().flatten()));
    }
}

/// Scanning each range of a line-aligned partition on its own and merging
/// the tables gives, station by station, the table of scanning the whole
/// buffer in one pass.
pub proof fn lemma_chunked_scan(b: Seq<u8>, cs: Seq<(usize, usize)>)
    requires
        contiguous(cs, b.len() as int),
        line_aligned(b, cs),
    ensures
        aggregate(records_of(lines(b))) == merge_all(
            Seq::new(
                cs.len(),
                |i: int| aggregate(records_of(lines(b.subrange(cs[i].0 as int, cs[i].1 as int)))),
            ),
        ),
{
    let cl = chunk_lines(b, cs);
    lemma_lines_of_chunks(b, cs);
    lemma_records_flatten(cl);
    let rs = Seq::new(cl.len(), |i: int| records_of(cl[i]));
    lemma_chunked_aggregate(rs);
    assert(rs.map_values(|c: Seq<(Seq<u8>, int)>| aggregate(c)) =~= Seq::new(
        cs.len(),
        |i: int| aggregate(records_of(lines(b.subrange(cs[i].0 as int, cs[i].1 as int)))),
    ));
}

} // verus!
