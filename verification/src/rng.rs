//! Random-number draws. Seeding and every draw go through the small trusted
//! functions below, which call `rand` on a `ChaCha8Rng`; what a draw returns
//! depends on the generator's state, so only ranges are promised. A
//! [`Draws`] borrows the generator and records every draw taken through it,
//! so that the selection and variation steps can state what they did with
//! the values actually drawn.
use vstd::prelude::*;
use rand::Rng;
use rand::RngCore;
use rand::SeedableRng;
use rand_chacha::ChaCha8Rng;

verus! {

/// The seeded ChaCha generator of `rand_chacha`, carried through opaquely.
#[verifier::external_type_specification]
#[verifier::external_body]
pub struct ExChaCha8Rng(ChaCha8Rng);

/// Calls `SeedableRng::seed_from_u64`: a ChaCha8 generator whose key is
/// expanded from `seed`. The generator's state is opaque here, so nothing is
/// stated of the result; that equal seeds give equal streams is left unsaid.
#[verifier::external_body]
pub(crate) fn seeded(seed: u64) -> (r: ChaCha8Rng)
{
    ChaCha8Rng::seed_from_u64(seed)
}

/// Calls `Rng::gen_range(0..n)` for `u8`: a uniform draw in `0..n`.
/// `rand` panics on an empty range, hence `n > 0`.
#[verifier::external_body]
pub(crate) fn gen_gene(rng: &mut ChaCha8Rng, n: u8) -> (r: u8)
    requires
        n > 0,
    ensures
        r < n,
{
    rng.gen_range(0..n)
}

/// Calls `Rng::gen_range(0..n)` for `usize`: a uniform draw in `0..n`.
/// `rand` panics on an empty range, hence `n > 0`.
#[verifier::external_body]
pub(crate) fn gen_index(rng: &mut ChaCha8Rng, n: usize) -> (r: usize)
    requires
        n > 0,
    ensures
        r < n,
{
    rng.gen_range(0..n)
}

/// Calls `Rng::gen::<bool>()`, a fair coin. Nothing is promised of the value.
#[verifier::external_body]
pub(crate) fn gen_coin(rng: &mut ChaCha8Rng) -> (r: bool)
{
    rng.gen::<bool>()
}

/// Calls `RngCore::next_u64`, 64 uniformly random bits. Nothing is promised of
/// the value.
#[verifier::external_body]
pub(crate) fn next_u64(rng: &mut ChaCha8Rng) -> (r: u64)
{
    rng.next_u64()
}

/// A generator on loan from a `&mut ChaCha8Rng`, with the record of the
/// index and coin draws taken from it. The record can grow only by a draw.
pub struct Draws {
    rng: ChaCha8Rng,
    indices: Ghost<Seq<usize>>,
    coins: Ghost<Seq<bool>>,
    values: Ghost<Seq<u8>>,
    words: Ghost<Seq<u64>>,
}

impl Draws {
    /// The index draws taken so far, in order.
    pub closed spec fn indices(&self) -> Seq<usize> {
        self.indices@
    }

    /// The coin draws taken so far, in order.
    pub closed spec fn coins(&self) -> Seq<bool> {
        self.coins@
    }

    /// The gene-value draws taken so far, in order.
    pub closed spec fn values(&self) -> Seq<u8> {
        self.values@
    }

    /// The 53-bit words behind the Bernoulli trials taken so far, in order.
    pub closed spec fn words(&self) -> Seq<u64> {
        self.words@
    }

    /// Takes the generator out of `rng`, which holds a placeholder until
    /// [`Draws::give_back`]; nothing is drawn yet.
    pub fn take(rng: &mut ChaCha8Rng) -> (d: Draws)
        ensures
            d.indices() == Seq::<usize>::empty(),
            d.coins() == Seq::<bool>::empty(),
            d.values() == Seq::<u8>::empty(),
            d.words() == Seq::<u64>::empty(),
    {
        let mut g = seeded(0);
        std::mem::swap(&mut g, rng);
        Draws {
            rng: g,
            indices: Ghost(Seq::empty()),
            coins: Ghost(Seq::empty()),
            values: Ghost(Seq::empty()),
            words: Ghost(Seq::empty()),
        }
    }

    /// Puts the generator, advanced by the draws taken, back into `rng`.
    pub fn give_back(self, rng: &mut ChaCha8Rng) {
        *rng = self.rng;
    }

    /// A uniform draw in `0..n`, recorded.
    pub fn index(&mut self, n: usize) -> (r: usize)
        requires
            n > 0,
        ensures
            r < n,
            final(self).indices() == old(self).indices().push(r),
            final(self).coins() == old(self).coins(),
            final(self).values() == old(self).values(),
            final(self).words() == old(self).words(),
    {
        let r = gen_index(&mut self.rng, n);
        self.indices = Ghost(self.indices@.push(r));
        r
    }

    /// A fair coin, recorded.
    pub fn coin(&mut self) -> (b: bool)
        ensures
            final(self).coins() == old(self).coins().push(b),
            final(self).indices() == old(self).indices(),
            final(self).values() == old(self).values(),
            final(self).words() == old(self).words(),
    {
        let b = gen_coin(&mut self.rng);
        self.coins = Ghost(self.coins@.push(b));
        b
    }

    /// A uniform gene value in `0..n`, recorded.
    pub fn gene(&mut self, n: u8) -> (r: u8)
        requires
            n > 0,
        ensures
            r < n,
            final(self).values() == old(self).values().push(r),
            final(self).indices() == old(self).indices(),
            final(self).coins() == old(self).coins(),
            final(self).words() == old(self).words(),
    {
        let r = gen_gene(&mut self.rng, n);
        self.values = Ghost(self.values@.push(r));
        r
    }

    /// A Bernoulli trial as [`draw_below`]: a recorded 53-bit word `u`, and
    /// whether `u < threshold`.
    pub fn below(&mut self, threshold: u64) -> (b: bool)
        ensures
            final(self).words().len() == old(self).words().len() + 1,
            final(self).words() == old(self).words().push(final(self).words().last()),
            final(self).words().last() < UNIT_53,
            b == (final(self).words().last() < threshold),
            final(self).indices() == old(self).indices(),
            final(self).coins() == old(self).coins(),
            final(self).values() == old(self).values(),
    {
        let x = next_u64(&mut self.rng);
        let u = x >> 11u64;
        assert((x >> 11u64) < 0x20_0000_0000_0000u64) by (bit_vector);
        self.words = Ghost(self.words@.push(u));
        u < threshold
    }
}

/// Exclusive upper end of the 53-bit draws behind [`draw_below`].
pub const UNIT_53: u64 = 0x20_0000_0000_0000;

/// A Bernoulli trial: draws 53 random bits `u` and reports `u < threshold`.
/// With `threshold = ceil(rate * 2^53)` this is the same trial, on the same
/// stream of bits, as `rand`'s `gen::<f64>() < rate`.
pub fn draw_below(rng: &mut ChaCha8Rng, threshold: u64) -> (b: bool)
    ensures
        threshold == 0 ==> !b,
        threshold >= UNIT_53 ==> b,
{
    let x = next_u64(rng);
    let u = x >> 11u64;
    assert((x >> 11u64) < 0x20_0000_0000_0000u64) by (bit_vector);
    u < threshold
}

} // verus!
