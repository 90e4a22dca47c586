use vstd::prelude::*;

verus! {

/// Odd multiplier applied after every feed.
pub const HASH_K: u64 = 0xf1357aea2e62a9c5u64;

/// Constant that each fed value is mixed into.
pub const HASH_SEED: u64 = 0x13198a2e03707344u64;

/// The value packed out of one fed byte sequence: the first, middle and last
/// byte of a short input, or the first four bytes (little endian) of a longer one.
/// An empty input packs to zero.
pub open spec fn packed(b: Seq<u8>) -> u64 {
    if b.len() == 0 {
        0
    } else if b.len() < 4 {
        (b[0] as int + 0x100 * b[(b.len() / 2) as int] as int + 0x1_0000 * b[b.len() - 1] as int) as u64
    } else {
        (b[0] as int + 0x100 * b[1] as int + 0x1_0000 * b[2] as int + 0x100_0000
            * b[3] as int) as u64
    }
}

/// The state after feeding `b` to a hasher in state `state`.
pub open spec fn fed(state: u64, b: Seq<u8>) -> u64 {
    vstd::wrapping::u64_specs::wrapping_mul(
        vstd::wrapping::u64_specs::wrapping_add(state, HASH_SEED ^ packed(b)),
        HASH_K,
    )
}

/// The final mix: a left rotation by 26 bits.
pub open spec fn finished(state: u64) -> u64 {
    (state << 26u64) | (state >> 38u64)
}

/// The hash of one byte sequence: fed once to a fresh hasher, then finished.
pub open spec fn hash_of(b: Seq<u8>) -> u64 {
    finished(fed(0, b))
}

/// A weak hash tuned for short station names. It reads at most four bytes
/// of its input, so a lookup must always compare the full keys as well.
pub struct Fasthasher {
    state: u64,
}

impl View for Fasthasher {
    type V = u64;

    closed spec fn view(&self) -> u64 {
        self.state
    }
}

impl Fasthasher {
    pub fn new() -> (r: Fasthasher)
        ensures
            r@ == 0,
    {
        Fasthasher { state: 0 }
    }

    pub fn write(&mut self, bytes: &[u8])
        ensures
            final(self)@ == fed(old(self)@, bytes@),
    {
        let len = bytes.len();
        let mut acc: u64 = HASH_SEED;
        let value: u64 = if len == 0 {
            0
        } else if len < 4 {
            let low = bytes[0] as u64;
            let mid = bytes[len / 2] as u64;
            let high = bytes[len - 1] as u64;
            low + 0x100 * mid + 0x1_0000 * high
        } else {
            bytes[0] as u64 + 0x100 * bytes[1] as u64 + 0x1_0000 * bytes[2] as u64 + 0x100_0000
                * bytes[3] as u64
        };
        acc = acc ^ value;
        self.state = self.state.wrapping_add(acc).wrapping_mul(HASH_K);
    }

    pub fn finish(&self) -> (r: u64)
        ensures
            r == finished(self@),
    {
        (self.state << 26u64) | (self.state >> 38u64)
    }
}

/// Hashes one byte sequence.
pub fn fast_hash(bytes: &[u8]) -> (r: u64)
    ensures
        r == hash_of(bytes@),
{
    let mut h = Fasthasher::new();
    h.write(bytes);
    h.finish()
}

} // verus!
