use vstd::prelude::*;

use rand::RngCore;
use rand::SeedableRng;
use rand_chacha::ChaCha20Rng;

verus! {

#[verifier::external_type_specification]
#[verifier::external_body]
pub struct ExChaCha20Rng(ChaCha20Rng);

/// The stream a ChaCha20 generator draws from: an abstract identity of the
/// seed material. A generator built from the 64-bit seed `s` draws from
/// stream `s as int`; one seeded from entropy draws from some stream that is
/// never pinned down.
pub uninterp spec fn rng_stream(rng: ChaCha20Rng) -> int;

/// How many 32-bit words a ChaCha20 generator has already handed out: its
/// position within its stream.
pub uninterp spec fn rng_index(rng: ChaCha20Rng) -> nat;

/// The pseudorandom word stream itself: the 32-bit word at position `index`
/// of the stream identified by `stream`.
pub uninterp spec fn stream_u32(stream: int, index: nat) -> u32;

/// The stream a generator built by `seed_from_u64` from the 64-bit seed
/// `seed` draws from: seeding is deterministic, so the seed alone picks the
/// stream.
pub uninterp spec fn seed_stream(seed: u64) -> int;

/// Relies on `SeedableRng::seed_from_u64` for `rand_chacha::ChaCha20Rng`: the
/// generator, and hence its whole output stream, is a deterministic function
/// of the 64-bit seed, and it starts at the beginning of that stream.
#[verifier::external_body]
pub fn rng_from_seed(seed: u64) -> (r: ChaCha20Rng)
    ensures
        rng_stream(r) == seed_stream(seed),
        rng_index(r) == 0,
{
    ChaCha20Rng::seed_from_u64(seed)
}

/// Relies on `SeedableRng::from_entropy` for `rand_chacha::ChaCha20Rng`: a
/// generator seeded from operating-system entropy, starting at the beginning
/// of its stream; nothing is known of which stream that is. Panics only if
/// the operating system cannot supply entropy.
#[verifier::external_body]
pub fn rng_from_entropy() -> (r: ChaCha20Rng)
    ensures
        rng_index(r) == 0,
{
    ChaCha20Rng::from_entropy()
}

/// Relies on `RngCore::next_u32` for `rand_chacha::ChaCha20Rng`: each call
/// returns the next 32-bit word of the generator's output stream, which is a
/// deterministic function of how the generator was seeded and of how many
/// words it has already produced, and advances the generator by exactly one
/// word within the same stream.
#[verifier::external_body]
pub fn rng_next_u32(rng: &mut ChaCha20Rng) -> (r: u32)
    ensures
        r == stream_u32(rng_stream(*old(rng)), rng_index(*old(rng))),
        rng_stream(*final(rng)) == rng_stream(*old(rng)),
        rng_index(*final(rng)) == rng_index(*old(rng)) + 1,
{
    rng.next_u32()
}

} // verus!
