use vstd::prelude::*;
use crate::fast_hash::{fast_hash, hash_of};
use vstd::std_specs::cmp::PartialEqSpec;

verus! {

/// Size of the inline buffer: that of a pointer and a length.
pub const INLINE: usize = 16;

/// Position of the tag byte in the inline buffer.
pub const LAST: usize = 15;

enum Repr {
    /// Bytes `0..tag - 1` hold the key; the tag byte holds its length plus one.
    Inlined([u8; INLINE]),
    /// A key too long for the inline buffer.
    Heap(Vec<u8>),
}

/// An owned station name. Keys shorter than `INLINE` bytes are stored inline,
/// longer ones on the heap; the choice is made by length at construction and
/// never changes. Equality and hashing look at the bytes only.
pub struct StrVec {
    repr: Repr,
}

impl View for StrVec {
    type V = Seq<u8>;

    closed spec fn view(&self) -> Seq<u8> {
        match self.repr {
            Repr::Inlined(a) => a@.subrange(0, a@[LAST as int] - 1),
            Repr::Heap(v) => v@,
        }
    }
}

impl StrVec {
    #[verifier::type_invariant]
    spec fn inv(&self) -> bool {
        match self.repr {
            Repr::Inlined(a) => 1 <= a@[LAST as int] <= INLINE,
            Repr::Heap(v) => v@.len() >= INLINE,
        }
    }

    /// Whether the key is held in the inline buffer.
    pub closed spec fn is_inline(&self) -> bool {
        self.repr is Inlined
    }

    /// Copies `s` into whichever representation fits its length.
    pub fn new(s: &[u8]) -> (r: StrVec)
        ensures
            r@ == s@,
            r.is_inline() <==> s@.len() < INLINE,
    {
        if s.len() < INLINE {
            let mut combined = [0u8; INLINE];
            let mut i: usize = 0;
            while i < s.len()
                invariant
                    i <= s@.len() < INLINE,
                    forall|j: int| 0 <= j < i ==> combined@[j] == s@[j],
                decreases s@.len() - i,
            {
                combined[i] = s[i];
                i = i + 1;
            }
            combined[LAST] = (s.len() + 1) as u8;
            assert(combined@.subrange(0, combined@[LAST as int] - 1) =~= s@);
            StrVec { repr: Repr::Inlined(combined) }
        } else {
            StrVec { repr: Repr::Heap(vstd::slice::slice_to_vec(s)) }
        }
    }

    /// The key's bytes, whatever the representation.
    pub fn as_bytes(&self) -> (r: &[u8])
        ensures
            r@ == self@,
    {
        proof {
            use_type_invariant(self);
        }
        match &self.repr {
            Repr::Inlined(a) => {
                let len = (a[LAST] - 1) as usize;
                &a.as_slice()[0..len]
            },
            Repr::Heap(v) => v.as_slice(),
        }
    }

    /// The key's hash under the station-name hash.
    pub fn hash_key(&self) -> (r: u64)
        ensures
            r == hash_of(self@),
    {
        fast_hash(self.as_bytes())
    }

    /// Whether the key holds exactly the bytes `s`.
    pub fn eq_bytes(&self, s: &[u8]) -> (r: bool)
        ensures
            r == (self@ == s@),
    {
        bytes_eq(self.as_bytes(), s)
    }
}

/// Compares two byte sequences in full.
pub fn bytes_eq(a: &[u8], b: &[u8]) -> (r: bool)
    ensures
        r == (a@ == b@),
{
    if a.len() != b.len() {
        return false;
    }
    let mut i: usize = 0;
    while i < a.len()
        invariant
            a@.len() == b@.len(),
            i <= a@.len(),
            forall|j: int| 0 <= j < i ==> a@[j] == b@[j],
        decreases a@.len() - i,
    {
        if a[i] != b[i] {
            return false;
        }
        i = i + 1;
    }
    assert(a@ =~= b@);
    true
}

impl PartialEq for StrVec {
    fn eq(&self, other: &StrVec) -> (r: bool) {
        bytes_eq(self.as_bytes(), other.as_bytes())
    }
}

impl vstd::std_specs::cmp::PartialEqSpecImpl for StrVec {
    open spec fn obeys_eq_spec() -> bool {
        true
    }

    open spec fn eq_spec(&self, other: &StrVec) -> bool {
        self@ == other@
    }
}

impl Eq for StrVec {
}

/// Keys with the same bytes hash alike, whichever representation each holds.
pub proof fn lemma_equal_keys_hash_alike(a: &StrVec, b: &StrVec)
    requires
        a.eq_spec(b),
    ensures
        hash_of(a@) == hash_of(b@),
{
}

} // verus!
