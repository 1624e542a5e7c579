//! The seeded random number generator that masks are drawn with.
//!
//! The generator is deterministic: what it hands out is a function of its seed
//! and of the requests made of it before. The view of a generator is exactly
//! that, a seed and a sequence of requests.
use rand::rngs::StdRng;
use rand::{Rng, RngCore, SeedableRng};
use vstd::prelude::*;

verus! {

/// The standard generator of the `rand` crate.
#[verifier::external_type_specification]
#[verifier::external_body]
pub struct ExStdRng(StdRng);

/// A request made of a generator.
pub enum Draw {
    /// A number of random bytes.
    Bytes(nat),
    /// A 16-bit number between two bounds, both included.
    Small(u16, u16),
    /// A 64-bit number between two bounds, both included.
    Large(u64, u64),
}

/// The state of a generator: its seed and the requests so far.
pub struct DrawLog {
    pub seed: u64,
    pub draws: Seq<Draw>,
}

impl DrawLog {
    /// The state after one more request.
    pub open spec fn then_draw(self, draw: Draw) -> DrawLog {
        DrawLog { seed: self.seed, draws: self.draws.push(draw) }
    }
}

/// The state of a generator that was just seeded.
pub open spec fn fresh(seed: u64) -> DrawLog {
    DrawLog { seed, draws: Seq::empty() }
}

/// What `RngCore::fill_bytes` writes to a buffer of `len` bytes, for a generator
/// with the given seed and earlier requests.
pub uninterp spec fn drawn_bytes(seed: u64, draws: Seq<Draw>, len: nat) -> Seq<u8>;

/// What `Rng::gen_range` gives for an inclusive range of 16-bit numbers, for a
/// generator with the given seed and earlier requests.
pub uninterp spec fn drawn_small(seed: u64, draws: Seq<Draw>, low: u16, high: u16) -> u16;

/// What `Rng::gen_range` gives for an inclusive range of 64-bit numbers, for a
/// generator with the given seed and earlier requests.
pub uninterp spec fn drawn_large(seed: u64, draws: Seq<Draw>, low: u64, high: u64) -> u64;

/// A seeded generator with a record of what was asked of it.
pub struct MaskRng {
    rng: StdRng,
    log: Ghost<DrawLog>,
}

impl View for MaskRng {
    type V = DrawLog;

    closed spec fn view(&self) -> DrawLog {
        self.log@
    }
}

/// Calls `StdRng::seed_from_u64`: a generator of that seed, of which nothing has
/// been asked.
#[verifier::external_body]
fn seeded(seed: u64) -> (r: MaskRng)
    ensures
        r@ == fresh(seed),
{
    MaskRng { rng: StdRng::seed_from_u64(seed), log: Ghost(fresh(seed)) }
}

/// Calls `RngCore::fill_bytes` on a new buffer. `StdRng` is a deterministic
/// stream cipher, so the bytes are a function of the seed, the earlier requests
/// and the length.
#[verifier::external_body]
fn filled(rng: &mut MaskRng, len: usize) -> (r: Vec<u8>)
    requires
        len <= isize::MAX,
    ensures
        r@ == drawn_bytes(old(rng)@.seed, old(rng)@.draws, len as nat),
        r@.len() == len,
        final(rng)@ == old(rng)@.then_draw(Draw::Bytes(len as nat)),
{
    let mut buffer = vec![0u8; len];
    rng.rng.fill_bytes(&mut buffer);
    buffer
}

/// Calls `Rng::gen_range` on an inclusive range of 16-bit numbers. The result
/// lies in the range and is a function of the seed, the earlier requests and
/// the bounds. The outside function panics on an empty range.
#[verifier::external_body]
fn ranged_small(rng: &mut MaskRng, low: u16, high: u16) -> (r: u16)
    requires
        low <= high,
    ensures
        r == drawn_small(old(rng)@.seed, old(rng)@.draws, low, high),
        low <= r <= high,
        final(rng)@ == old(rng)@.then_draw(Draw::Small(low, high)),
{
    rng.rng.gen_range(low..=high)
}

/// Calls `Rng::gen_range` on an inclusive range of 64-bit numbers. The result
/// lies in the range and is a function of the seed, the earlier requests and
/// the bounds. The outside function panics on an empty range.
#[verifier::external_body]
fn ranged_large(rng: &mut MaskRng, low: u64, high: u64) -> (r: u64)
    requires
        low <= high,
    ensures
        r == drawn_large(old(rng)@.seed, old(rng)@.draws, low, high),
        low <= r <= high,
        final(rng)@ == old(rng)@.then_draw(Draw::Large(low, high)),
{
    rng.rng.gen_range(low..=high)
}

impl MaskRng {
    /// A generator of the given seed.
    pub fn seed_from_u64(seed: u64) -> (r: MaskRng)
        ensures
            r@ == fresh(seed),
    {
        seeded(seed)
    }

    /// Random bytes.
    pub fn bytes(&mut self, len: usize) -> (r: Vec<u8>)
        requires
            len <= isize::MAX,
        ensures
            r@ == drawn_bytes(old(self)@.seed, old(self)@.draws, len as nat),
            r@.len() == len,
            final(self)@ == old(self)@.then_draw(Draw::Bytes(len as nat)),
    {
        filled(self, len)
    }

    /// A 16-bit number between two bounds, both included.
    pub fn small(&mut self, low: u16, high: u16) -> (r: u16)
        requires
            low <= high,
        ensures
            r == drawn_small(old(self)@.seed, old(self)@.draws, low, high),
            low <= r <= high,
            final(self)@ == old(self)@.then_draw(Draw::Small(low, high)),
    {
        ranged_small(self, low, high)
    }

    /// A 64-bit number between two bounds, both included.
    pub fn large(&mut self, low: u64, high: u64) -> (r: u64)
        requires
            low <= high,
        ensures
            r == drawn_large(old(self)@.seed, old(self)@.draws, low, high),
            low <= r <= high,
            final(self)@ == old(self)@.then_draw(Draw::Large(low, high)),
    {
        ranged_large(self, low, high)
    }
}

/// Calls `rand::random` for a 32-bit number. Nothing is known of it but its type.
#[verifier::external_body]
pub(crate) fn random_draw() -> u32 {
    rand::random()
}

/// Random bytes.
pub fn random_bytes(len: usize) -> (r: Vec<u8>)
    ensures
        r@.len() == len,
{
    let mut bytes: Vec<u8> = Vec::new();
    while bytes.len() < len
        invariant
            bytes@.len() <= len,
        decreases len - bytes@.len(),
    {
        bytes.push((random_draw() % 256) as u8);
    }
    bytes
}

} // verus!
