//! The generator that a challenge is handed out as: one endless stream of
//! bytes that its seed alone determines.

use crate::duplex::{drained, meow_key, meow_new, meow_open, meow_prf, meow_state, stream, OP_PRF};
use ck_meow::Meow;
use vstd::prelude::*;

verus! {

#[verifier::external_type_specification]
#[verifier::external_body]
pub struct ExError(rand_core::Error);

/// The size of the seeds our RNG consumes, in bytes.
pub const SEED_SIZE: usize = 32;

/// A label we use to domain separate our RNG: the ASCII bytes of
/// `magikitten v0.1.0 challenge rng`.
pub const CHALLENGE_RNG_CONTEXT: [u8; 31] = [
    0x6d, 0x61, 0x67, 0x69, 0x6b, 0x69, 0x74, 0x74, 0x65, 0x6e, 0x20, 0x76, 0x30, 0x2e, 0x31, 0x2e,
    0x30, 0x20, 0x63, 0x68, 0x61, 0x6c, 0x6c, 0x65, 0x6e, 0x67, 0x65, 0x20, 0x72, 0x6e, 0x67,
];

/// The state in which a generator made from `seed` starts: the duplex for
/// the generator's own context, keyed with the seed, with a squeeze opened
/// on it and nothing read yet.
pub open spec fn seeded(seed: Seq<u8>) -> Seq<u8> {
    meow_prf(meow_key(meow_new(CHALLENGE_RNG_CONTEXT@), seed, false), 0, false).1
}

/// A pseudo-random number generator.
///
/// This RNG is initialized with a seed, and from that point generates bits
/// deterministically from that seed. Crucially, these bits are determined
/// solely by that seed, and not by how they're pulled from the RNG.
/// Pulling bytes by chunks of 8, or chunks of 16, or 32, etc. will yield
/// the same bytes.
pub struct MeowRng {
    meow: Meow,
}

impl View for MeowRng {
    type V = Seq<u8>;

    /// The state of the generator's duplex.
    closed spec fn view(&self) -> Seq<u8> {
        meow_state(self.meow)
    }
}

impl MeowRng {
    /// Whether the squeeze that `new` opened is still the open operation,
    /// so that a read can continue it. This holds of every generator that
    /// this library hands out, and every read keeps it.
    pub closed spec fn wf(&self) -> bool {
        meow_open(self.meow) == OP_PRF
    }

    /// Create a new RNG from a seed.
    pub fn new(seed: &[u8; SEED_SIZE]) -> (rng: Self)
        ensures
            rng.wf(),
            rng@ == seeded(seed@),
    {
        let mut meow = Meow::new(CHALLENGE_RNG_CONTEXT.as_slice());
        meow.key(seed.as_slice(), false);
        // An empty squeeze opens the operation that every read continues.
        let mut nothing: [u8; 0] = [];
        meow.prf(&mut nothing, false);
        Self { meow }
    }

    /// Fills `dest` with the next bytes of the stream.
    pub fn fill_bytes(&mut self, dest: &mut [u8])
        requires
            old(self).wf(),
        ensures
            final(self).wf(),
            final(dest)@.len() == old(dest)@.len(),
            final(dest)@ == stream(old(self)@, old(dest)@.len()),
            final(self)@ == drained(old(self)@, old(dest)@.len()),
    {
        proof {
            lemma_stream_len(self@, dest@.len());
        }
        self.meow.prf(dest, true);
    }

    /// Fills `dest` with the next bytes of the stream. This never fails.
    pub fn try_fill_bytes(&mut self, dest: &mut [u8]) -> (res: Result<(), rand_core::Error>)
        requires
            old(self).wf(),
        ensures
            res is Ok,
            final(self).wf(),
            final(dest)@.len() == old(dest)@.len(),
            final(dest)@ == stream(old(self)@, old(dest)@.len()),
            final(self)@ == drained(old(self)@, old(dest)@.len()),
    {
        self.fill_bytes(dest);
        Ok(())
    }

    /// The next four bytes of the stream as a word, least significant byte
    /// first.
    pub fn next_u32(&mut self) -> (word: u32)
        requires
            old(self).wf(),
        ensures
            final(self).wf(),
            word == le_value(stream(old(self)@, 4)),
            final(self)@ == drained(old(self)@, 4),
    {
        let mut buf: [u8; 4] = [0u8; 4];
        self.fill_bytes(&mut buf);
        u32_from_le(&buf)
    }

    /// The next eight bytes of the stream as a word, least significant byte
    /// first.
    pub fn next_u64(&mut self) -> (word: u64)
        requires
            old(self).wf(),
        ensures
            final(self).wf(),
            word == le_value(stream(old(self)@, 8)),
            final(self)@ == drained(old(self)@, 8),
    {
        let mut buf: [u8; 8] = [0u8; 8];
        self.fill_bytes(&mut buf);
        u64_from_le(&buf)
    }
}

/// A stream of `len` bytes has `len` bytes.
pub proof fn lemma_stream_len(state: Seq<u8>, len: nat)
    ensures
        stream(state, len).len() == len,
    decreases len,
{
    if len > 0 {
        lemma_stream_len(meow_prf(state, 1, true).1, (len - 1) as nat);
    }
}

/// Reading `n` bytes and then `m` more gives, byte for byte, what reading
/// `n + m` bytes at once gives, and leaves the duplex in the same state.
pub proof fn lemma_stream_split(state: Seq<u8>, n: nat, m: nat)
    ensures
        stream(state, n + m) == stream(state, n) + stream(drained(state, n), m),
        drained(state, n + m) == drained(drained(state, n), m),
    decreases n,
{
    if n == 0 {
        assert(stream(state, 0) + stream(state, m) == stream(state, m));
    } else {
        let (byte, next) = meow_prf(state, 1, true);
        lemma_stream_split(next, (n - 1) as nat, m);
        assert((n + m - 1) as nat == (n - 1) as nat + m);
        assert(seq![byte[0]] + (stream(next, (n - 1) as nat) + stream(drained(state, n), m)) == (
        seq![byte[0]] + stream(next, (n - 1) as nat)) + stream(drained(state, n), m));
    }
}

/// Whatever the seed: the `n` bytes that a fresh generator gives, followed
/// by the `m` bytes that it gives next, are the `n + m` bytes that a fresh
/// generator with the same seed gives in one read, and both generators end
/// in the same state.
pub proof fn lemma_reads_are_chunking_independent(seed: Seq<u8>, n: nat, m: nat)
    ensures
        stream(seeded(seed), n) + stream(drained(seeded(seed), n), m) == stream(
            seeded(seed),
            n + m,
        ),
        drained(drained(seeded(seed), n), m) == drained(seeded(seed), n + m),
{
    lemma_stream_split(seeded(seed), n, m);
}

/// The number that `bytes` spell, least significant byte first.
pub open spec fn le_value(bytes: Seq<u8>) -> nat
    decreases bytes.len(),
{
    if bytes.len() == 0 {
        0
    } else {
        bytes[0] as nat + 256 * le_value(bytes.drop_first())
    }
}

/// The word that four bytes spell, least significant byte first.
pub fn u32_from_le(bytes: &[u8; 4]) -> (word: u32)
    ensures
        word == le_value(bytes@),
{
    let mut word: u32 = 0;
    let mut left: usize = 4;
    while left > 0
        invariant
            left <= 4,
            word == le_value(bytes@.skip(left as int)),
            word < pow256((4 - left) as nat),
        decreases left,
    {
        left = left - 1;
        proof {
            lemma_le_value_skip(bytes@, left as int);
            lemma_pow256_values();
        }
        word = word * 256 + bytes[left] as u32;
    }
    assert(bytes@.skip(0) == bytes@);
    word
}

/// The word that eight bytes spell, least significant byte first.
pub fn u64_from_le(bytes: &[u8; 8]) -> (word: u64)
    ensures
        word == le_value(bytes@),
{
    let mut word: u64 = 0;
    let mut left: usize = 8;
    while left > 0
        invariant
            left <= 8,
            word == le_value(bytes@.skip(left as int)),
            word < pow256((8 - left) as nat),
        decreases left,
    {
        left = left - 1;
        proof {
            lemma_le_value_skip(bytes@, left as int);
            lemma_pow256_values();
        }
        word = word * 256 + bytes[left] as u64;
    }
    assert(bytes@.skip(0) == bytes@);
    word
}

/// 256 to the power `k`.
pub open spec fn pow256(k: nat) -> nat
    decreases k,
{
    if k == 0 {
        1
    } else {
        256 * pow256((k - 1) as nat)
    }
}

proof fn lemma_pow256_values()
    ensures
        pow256(0) == 1,
        pow256(1) == 0x100,
        pow256(2) == 0x1_0000,
        pow256(3) == 0x100_0000,
        pow256(4) == 0x1_0000_0000,
        pow256(5) == 0x100_0000_0000,
        pow256(6) == 0x1_0000_0000_0000,
        pow256(7) == 0x100_0000_0000_0000,
        pow256(8) == 0x1_0000_0000_0000_0000,
{
    reveal_with_fuel(pow256, 9);
}

proof fn lemma_le_value_skip(bytes: Seq<u8>, at: int)
    requires
        0 <= at < bytes.len(),
    ensures
        le_value(bytes.skip(at)) == bytes[at] as nat + 256 * le_value(bytes.skip(at + 1)),
{
    assert(bytes.skip(at).drop_first() == bytes.skip(at + 1));
}

} // verus!
