use vstd::prelude::*;

verus! {

pub const NEWLINE: u8 = 10u8;

/// `i` is the position of the first line terminator in `b`.
pub open spec fn is_first_newline(b: Seq<u8>, i: int) -> bool {
    &&& 0 <= i < b.len()
    &&& b[i] == NEWLINE
    &&& forall|j: int| 0 <= j < i ==> b[j] != NEWLINE
}

/// `b` holds no line terminator.
pub open spec fn has_no_newline(b: Seq<u8>) -> bool {
    forall|j: int| 0 <= j < b.len() ==> b[j] != NEWLINE
}

/// Returns the index of the first line terminator in `map`, if there is one.
pub fn find_newline(map: &[u8]) -> (r: Option<usize>)
    ensures
        match r {
            Some(i) => is_first_newline(map@, i as int),
            None => has_no_newline(map@),
        },
{
    let mut i: usize = 0;
    while i < map.len()
        invariant
            i <= map@.len(),
            forall|j: int| 0 <= j < i ==> map@[j] != NEWLINE,
        decreases map@.len() - i,
    {
        if map[i] == NEWLINE {
            return Some(i);
        }
        i = i + 1;
    }
    None
}

/// End of the first line of `b`: its first terminator, or the end of `b`.
pub open spec fn line_end(b: Seq<u8>) -> int {
    if exists|i: int| is_first_newline(b, i) {
        choose|i: int| is_first_newline(b, i)
    } else {
        b.len() as int
    }
}

/// The lines of `b`, terminators excluded. The last line may lack a
/// terminator; a terminator at the very end starts no further line.
pub open spec fn lines(b: Seq<u8>) -> Seq<Seq<u8>>
    decreases b.len(),
{
    if b.len() == 0 {
        seq![]
    } else {
        let e = line_end(b);
        if 0 <= e < b.len() {
            seq![b.subrange(0, e)] + lines(b.subrange(e + 1, b.len() as int))
        } else {
            seq![b]
        }
    }
}

/// The first terminator is unique.
pub proof fn lemma_line_end(b: Seq<u8>, i: int)
    requires
        is_first_newline(b, i),
    ensures
        line_end(b) == i,
{
    let j = choose|j: int| is_first_newline(b, j);
    assert(is_first_newline(b, j));
}

/// Cutting a buffer just after a line terminator cuts its lines apart and
/// leaves each line whole.
pub proof fn lemma_lines_split(b: Seq<u8>, p: int)
    requires
        0 <= p <= b.len(),
        p == 0 || b[p - 1] == NEWLINE,
    ensures
        lines(b) == lines(b.subrange(0, p)) + lines(b.subrange(p, b.len() as int)),
    decreases b.len(),
{
    if p == 0 {
        assert(b.subrange(0, 0) =~= Seq::<u8>::empty());
        assert(b.subrange(0, b.len() as int) =~= b);
        assert(lines(b.subrange(0, 0)) =~= Seq::<Seq<u8>>::empty());
        assert(lines(b) =~= lines(b.subrange(0, p)) + lines(b.subrange(p, b.len() as int)));
    } else {
        let e = lemma_first_below(b, p);
        lemma_line_end(b, e);
        let head = b.subrange(0, p);
        assert(is_first_newline(head, e));
        lemma_line_end(head, e);
        let rest = b.subrange(e + 1, b.len() as int);
        let q = p - e - 1;
        lemma_lines_split(rest, q);
        assert(rest.subrange(0, q) =~= head.subrange(e + 1, head.len() as int));
        assert(rest.subrange(q, rest.len() as int) =~= b.subrange(p, b.len() as int));
        assert(head.subrange(0, e) =~= b.subrange(0, e));
        assert(lines(b) =~= lines(head) + lines(b.subrange(p, b.len() as int)));
    }
}

/// The first line terminator before a position known to hold one.
proof fn lemma_first_below(b: Seq<u8>, p: int) -> (e: int)
    requires
        0 < p <= b.len(),
        b[p - 1] == NEWLINE,
    ensures
        0 <= e < p,
        is_first_newline(b, e),
    decreases p,
{
    if exists|i: int| 0 <= i < p - 1 && b[i] == NEWLINE {
        let i = choose|i: int| 0 <= i < p - 1 && b[i] == NEWLINE;
        lemma_first_below(b, i + 1)
    } else {
        p - 1
    }
}

} // verus!
