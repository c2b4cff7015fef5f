//! Deterministic randomness for the simulation.
//!
//! Every random choice in a run flows from a single seed, so a run can be
//! reproduced exactly from its seed. The generator is ChaCha8, whose stream is
//! determined by the seed and independent of platform or thread scheduling.
use rand::Rng as _;
use rand::RngCore;
use rand::SeedableRng;
use rand_chacha::ChaCha8Rng;
use vstd::prelude::*;

verus! {

/// The probability that is certain: probabilities are integers in units of
/// `2^-53`, the spacing of the uniform draws from `[0, 1)`.
pub const CERTAIN: u64 = 0x20_0000_0000_0000;

/// `rand_chacha::ChaCha8Rng`, opaque here.
#[verifier::external_type_specification]
#[verifier::external_body]
pub struct ExChaCha8Rng(ChaCha8Rng);

/// One request to the generator.
pub enum Draw {
    /// A raw 64-bit word.
    Word,
    /// A uniform integer between two bounds, both included.
    Between(u64, u64),
    /// A uniform index below a length.
    Below(usize),
}

/// What `RngCore::next_u64` of a ChaCha8 generator returns that was seeded with
/// `seed` and has answered the requests `earlier`, in that order.
pub uninterp spec fn chacha8_word(seed: u64, earlier: Seq<Draw>) -> u64;

/// What `rand::Rng::random_range(lo..=hi)` on `u64` returns on a ChaCha8
/// generator that was seeded with `seed` and has answered `earlier`.
pub uninterp spec fn chacha8_between(seed: u64, earlier: Seq<Draw>, lo: u64, hi: u64) -> u64;

/// What `rand::Rng::random_range(0..len)` on `usize` returns on a ChaCha8
/// generator that was seeded with `seed` and has answered `earlier`.
pub uninterp spec fn chacha8_below(seed: u64, earlier: Seq<Draw>, len: usize) -> usize;

/// The state of a generator: its seed and the requests it has answered.
#[verifier::ext_equal]
pub struct RngState {
    pub seed: u64,
    pub draws: Seq<Draw>,
}

impl RngState {
    /// A generator fresh from `seed`.
    pub open spec fn fresh(seed: u64) -> RngState {
        RngState { seed, draws: seq![] }
    }

    /// The state after answering `d`.
    pub open spec fn after(self, d: Draw) -> RngState {
        RngState { seed: self.seed, draws: self.draws.push(d) }
    }

    /// Outcome of a trial with probability `p` in units of `2^-53`.
    pub open spec fn chance(self, p: u64) -> (bool, RngState) {
        ((chacha8_word(self.seed, self.draws) >> 11) < p, self.after(Draw::Word))
    }

    /// Uniform integer in `[lo, hi]`; `lo`, without a draw, when `lo >= hi`.
    /// A draw always lies within its bounds, so the clamp changes nothing: it
    /// lets proofs use the bounds of a draw that has not been made yet.
    pub open spec fn int_in(self, lo: u64, hi: u64) -> (u64, RngState) {
        if lo >= hi {
            (lo, self)
        } else {
            let v = chacha8_between(self.seed, self.draws, lo, hi);
            (
                if v < lo {
                    lo
                } else if v > hi {
                    hi
                } else {
                    v
                },
                self.after(Draw::Between(lo, hi)),
            )
        }
    }

    /// Uniform index in `[0, len)`. As in `int_in`, a draw always lies below
    /// `len`.
    pub open spec fn index(self, len: usize) -> (usize, RngState) {
        let v = chacha8_below(self.seed, self.draws, len);
        (
            if v < len {
                v
            } else {
                0
            },
            self.after(Draw::Below(len)),
        )
    }
}

/// Seeded source of all randomness in a simulation run.
pub struct Rng {
    inner: ChaCha8Rng,
    state: Ghost<RngState>,
}

impl View for Rng {
    type V = RngState;

    closed spec fn view(&self) -> RngState {
        self.state@
    }
}

impl Rng {
    /// `SeedableRng::seed_from_u64`: a ChaCha8 generator whose whole stream is
    /// determined by `seed`. What is trusted is that the generator has answered
    /// nothing yet and that its answers are those named for `seed`.
    #[verifier::external_body]
    pub fn from_seed(seed: u64) -> (r: Self)
        ensures
            r@ == RngState::fresh(seed),
    {
        Rng { inner: ChaCha8Rng::seed_from_u64(seed), state: Ghost(RngState::fresh(seed)) }
    }

    /// `RngCore::next_u64`: the next 64-bit word of the stream, a function of
    /// the seed and of the requests answered before.
    #[verifier::external_body]
    fn next_word(&mut self) -> (r: u64)
        ensures
            r == chacha8_word(old(self)@.seed, old(self)@.draws),
            final(self)@ == old(self)@.after(Draw::Word),
    {
        self.inner.next_u64()
    }

    /// `rand::Rng::random_range` over an inclusive range of `u64`: an integer
    /// within the range, a function of the seed, of the requests answered
    /// before and of the range.
    #[verifier::external_body]
    fn next_between(&mut self, lo: u64, hi: u64) -> (r: u64)
        requires
            lo <= hi,
        ensures
            lo <= r <= hi,
            r == chacha8_between(old(self)@.seed, old(self)@.draws, lo, hi),
            final(self)@ == old(self)@.after(Draw::Between(lo, hi)),
    {
        self.inner.random_range(lo..=hi)
    }

    /// `rand::Rng::random_range` over `0..len` of `usize`: an index below
    /// `len`, a function of the seed, of the requests answered before and of
    /// `len`.
    #[verifier::external_body]
    fn next_below(&mut self, len: usize) -> (r: usize)
        requires
            0 < len,
        ensures
            r < len,
            r == chacha8_below(old(self)@.seed, old(self)@.draws, len),
            final(self)@ == old(self)@.after(Draw::Below(len)),
    {
        self.inner.random_range(0..len)
    }

    /// Returns `true` with probability `p`, given in units of `2^-53`; always
    /// when `p` is at least [`CERTAIN`]. The top 53 bits of a word are a
    /// uniform draw from `[0, 1)` in the same units.
    pub fn chance(&mut self, p: u64) -> (r: bool)
        ensures
            (r, final(self)@) == old(self)@.chance(p),
            p >= CERTAIN ==> r,
            p == 0 ==> !r,
    {
        let word: u64 = self.next_word();
        assert((word >> 11) < 0x20_0000_0000_0000) by (bit_vector);
        (word >> 11) < p
    }

    /// Uniform integer in `[lo, hi]` inclusive. Returns `lo` when `lo >= hi`.
    pub fn int_in(&mut self, lo: u64, hi: u64) -> (r: u64)
        ensures
            (r, final(self)@) == old(self)@.int_in(lo, hi),
            lo <= r,
            lo <= hi ==> r <= hi,
    {
        if lo >= hi {
            return lo;
        }
        self.next_between(lo, hi)
    }

    /// Uniform index in `[0, len)`.
    pub fn index(&mut self, len: usize) -> (r: usize)
        requires
            0 < len,
        ensures
            (r, final(self)@) == old(self)@.index(len),
            r < len,
    {
        self.next_below(len)
    }

    /// Picks a value from a non-empty slice.
    pub fn pick<'a, T>(&mut self, items: &'a [T]) -> (r: &'a T)
        requires
            0 < items@.len(),
        ensures
            final(self)@ == old(self)@.index(items@.len() as usize).1,
            old(self)@.index(items@.len() as usize).0 < items@.len(),
            *r == items@[old(self)@.index(items@.len() as usize).0 as int],
    {
        let i: usize = self.index(items.len());
        &items[i]
    }
}

/// Each draw is remembered, so that the next one differs, and the seed stays.
pub proof fn draws_are_remembered(rng: RngState, p: u64, lo: u64, hi: u64, len: usize)
    ensures
        RngState::fresh(rng.seed).seed == rng.seed,
        RngState::fresh(rng.seed).draws.len() == 0,
        rng.chance(p).1.seed == rng.seed,
        rng.chance(p).1.draws == rng.draws.push(Draw::Word),
        rng.int_in(lo, hi).1.seed == rng.seed,
        lo < hi ==> rng.int_in(lo, hi).1.draws == rng.draws.push(Draw::Between(lo, hi)),
        lo >= hi ==> rng.int_in(lo, hi).1 == rng,
        rng.index(len).1.seed == rng.seed,
        rng.index(len).1.draws == rng.draws.push(Draw::Below(len)),
{
}

/// What is drawn is what the generator gives, where that is in range; a likelier
/// event happens wherever a less likely one does, and one of no likelihood never.
pub proof fn draws_are_in_range(rng: RngState, p: u64, q: u64, lo: u64, hi: u64, len: usize)
    ensures
        !rng.chance(0).0,
        p <= q && rng.chance(p).0 ==> rng.chance(q).0,
        lo <= hi ==> lo <= rng.int_in(lo, hi).0 <= hi,
        lo < hi && lo <= chacha8_between(rng.seed, rng.draws, lo, hi) <= hi ==> rng.int_in(lo, hi).0
            == chacha8_between(rng.seed, rng.draws, lo, hi),
        len > 0 ==> rng.index(len).0 < len,
        chacha8_below(rng.seed, rng.draws, len) < len ==> rng.index(len).0 == chacha8_below(
            rng.seed,
            rng.draws,
            len,
        ),
{
}

} // verus!
