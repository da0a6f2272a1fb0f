use std::collections::hash_map::DefaultHasher;
use std::hash::Hasher;
use vstd::bytes::{spec_u32_to_le_bytes, u32_to_le_bytes};
use vstd::prelude::*;
use vstd::std_specs::hash::DefaultHasherAdditionalSpecFns;

verus! {

/// The constant that every draw mixes into the state.
pub const STEP: u32 = 7;

/// The state right after seeding: one write, of the seed.
pub open spec fn seeded_state(seed: u32) -> Seq<Seq<u8>> {
    seq![spec_u32_to_le_bytes(seed)]
}

/// The state that one draw leaves behind.
pub open spec fn advance(state: Seq<Seq<u8>>) -> Seq<Seq<u8>> {
    state.push(spec_u32_to_le_bytes(STEP))
}

/// The 64-bit value that a draw from `state` yields: the digest of the
/// state that the draw leaves behind.
pub open spec fn output(state: Seq<Seq<u8>>) -> u64 {
    DefaultHasher::spec_finish(advance(state))
}

/// The state after `draws` draws from a generator seeded with `seed`.
pub open spec fn stream_state(seed: u32, draws: nat) -> Seq<Seq<u8>>
    decreases draws,
{
    if draws == 0 {
        seeded_state(seed)
    } else {
        advance(stream_state(seed, (draws - 1) as nat))
    }
}

/// The value of draw number `k`, counted from zero, of the stream that
/// `seed` starts.
pub open spec fn stream_value(seed: u32, k: nat) -> u64 {
    output(stream_state(seed, k))
}

/// A reproducible number stream: a running hash that every draw feeds a
/// constant and then reads.
pub struct HashRandom {
    hasher: DefaultHasher,
}

impl View for HashRandom {
    type V = Seq<Seq<u8>>;

    /// Everything written into the running hash so far, write by write.
    closed spec fn view(&self) -> Seq<Seq<u8>> {
        self.hasher@
    }
}

impl HashRandom {
    /// A generator that has not been seeded.
    pub fn new() -> (g: HashRandom)
        ensures
            g@ == Seq::<Seq<u8>>::empty(),
    {
        HashRandom { hasher: DefaultHasher::new() }
    }

    /// A generator that starts the stream of `seed`.
    pub fn seeded(seed: u32) -> (g: HashRandom)
        ensures
            g@ == seeded_state(seed),
            g@ == stream_state(seed, 0),
    {
        let mut g = Self::new();
        g.seed(seed);
        g
    }

    /// Forgets everything drawn so far and starts the stream of `seed`.
    pub fn seed(&mut self, seed: u32)
        ensures
            final(self)@ == seeded_state(seed),
    {
        self.hasher = DefaultHasher::new();
        let bytes = u32_to_le_bytes(seed);
        self.hasher.write(bytes.as_slice());
        assert(self.hasher@ =~= seeded_state(seed));
    }

    /// Advances the state once and reads it.
    pub fn next_u64(&mut self) -> (value: u64)
        ensures
            final(self)@ == advance(old(self)@),
            value == output(old(self)@),
    {
        let bytes = u32_to_le_bytes(STEP);
        self.hasher.write(bytes.as_slice());
        self.hasher.finish()
    }

    /// One draw, cut down to its low 32 bits.
    pub fn next_u32(&mut self) -> (value: u32)
        ensures
            final(self)@ == advance(old(self)@),
            value == output(old(self)@) % 0x1_0000_0000,
    {
        let wide = self.next_u64();
        assert(wide as u32 == wide % 0x1_0000_0000) by (bit_vector);
        wide as u32
    }

    /// One draw, cut down to its low 16 bits.
    pub fn next_u16(&mut self) -> (value: u16)
        ensures
            final(self)@ == advance(old(self)@),
            value == output(old(self)@) % 0x1_0000,
    {
        let wide = self.next_u64();
        assert(wide as u16 == wide % 0x1_0000) by (bit_vector);
        wide as u16
    }

    /// One draw, cut down to its low 8 bits.
    pub fn next_u8(&mut self) -> (value: u8)
        ensures
            final(self)@ == advance(old(self)@),
            value == output(old(self)@) % 0x100,
    {
        let wide = self.next_u64();
        assert(wide as u8 == wide % 0x100) by (bit_vector);
        wide as u8
    }
}

/// Two generators in the same state draw the same value and are in the
/// same state afterwards: nothing but the state decides a draw.
pub proof fn lemma_same_state_same_draw(a: &HashRandom, b: &HashRandom)
    requires
        a@ == b@,
    ensures
        output(a@) == output(b@),
        advance(a@) == advance(b@),
{
}

/// A generator that has made `k` draws since it was seeded with `seed`
/// yields value number `k` of that seed's stream next, and has then made
/// `k + 1` draws.
pub proof fn lemma_stream_step(g: &HashRandom, seed: u32, k: nat)
    requires
        g@ == stream_state(seed, k),
    ensures
        output(g@) == stream_value(seed, k),
        advance(g@) == stream_state(seed, k + 1),
{
}

} // verus!
