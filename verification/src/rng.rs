//! The random source every generator draws from: a ChaCha generator with
//! eight rounds, seeded from a number or from system entropy.

use rand::{Rng, SeedableRng};
use vstd::prelude::*;

verus! {

/// `rand_chacha::ChaCha8Rng`, the ChaCha generator with eight rounds.
/// Nothing inside it is visible to proofs.
#[verifier::external_type_specification]
#[verifier::external_body]
pub struct ExChaCha8Rng(rand_chacha::ChaCha8Rng);

/// The denominator of probabilities given in millionths.
pub const MILLION: u32 = 1_000_000;

/// The state of a ChaCha generator: its key, its counter and the part of
/// its last block not yet handed out, as bytes.
pub uninterp spec fn state_of(source: rand_chacha::ChaCha8Rng) -> Seq<u8>;

/// The state in which `rand_chacha::ChaCha8Rng::seed_from_u64` hands out
/// the generator for `seed`.
pub uninterp spec fn seeded_state(seed: u64) -> Seq<u8>;

/// `rand_chacha::ChaCha8Rng::seed_from_u64`: the generator is a function
/// of `seed` alone, so that its state is the one named after the seed.
/// Nothing is claimed of what that state is.
#[verifier::external_body]
fn seeded(seed: u64) -> (source: rand_chacha::ChaCha8Rng)
    ensures
        state_of(source) == seeded_state(seed),
{
    rand_chacha::ChaCha8Rng::seed_from_u64(seed)
}

/// `rand::thread_rng().gen()`: a number from the thread's entropy-seeded
/// generator. Nothing is claimed of the number.
#[verifier::external_body]
fn entropy_seed() -> u64 {
    rand::thread_rng().gen()
}

/// `Rng::gen_range` on the half-open range `low..high`: the draw lies in
/// the range. The call panics on an empty range, which `requires` leaves
/// out.
#[verifier::external_body]
fn draw_range(source: &mut rand_chacha::ChaCha8Rng, low: usize, high: usize) -> (value: usize)
    requires
        low < high,
    ensures
        low <= value < high,
{
    source.gen_range(low..high)
}

/// `Rng::gen_ratio`: `true` with probability `numerator / denominator`;
/// never `true` for a zero numerator and always `true` when numerator and
/// denominator are equal. The call panics on a zero denominator or a
/// numerator above it, which `requires` leaves out.
#[verifier::external_body]
fn draw_ratio(source: &mut rand_chacha::ChaCha8Rng, numerator: u32, denominator: u32) -> (hit:
    bool)
    requires
        0 < denominator,
        numerator <= denominator,
    ensures
        numerator == 0 ==> !hit,
        numerator == denominator ==> hit,
{
    source.gen_ratio(numerator, denominator)
}

/// The random source of one generation run.
pub struct MazeRng {
    source: rand_chacha::ChaCha8Rng,
}

impl MazeRng {
    /// The state of the generator the draws come from.
    pub closed spec fn state(&self) -> Seq<u8> {
        state_of(self.source)
    }

    /// A source whose draws are fixed by the seed when one is given, and
    /// seeded from system entropy otherwise: with a seed it starts in the
    /// state that belongs to that seed.
    pub fn new(seed: Option<u64>) -> (rng: MazeRng)
        ensures
            seed matches Some(s) ==> rng.state() == seeded_state(s),
    {
        let seed = match seed {
            Some(s) => s,
            None => entropy_seed(),
        };
        MazeRng { source: seeded(seed) }
    }

    /// A draw from `low..high`.
    pub fn between(&mut self, low: usize, high: usize) -> (value: usize)
        requires
            low < high,
        ensures
            low <= value < high,
    {
        draw_range(&mut self.source, low, high)
    }

    /// A draw from `0..n`.
    pub fn below(&mut self, n: usize) -> (value: usize)
        requires
            0 < n,
        ensures
            value < n,
    {
        draw_range(&mut self.source, 0, n)
    }

    /// A coordinate drawn from `0..n`.
    pub fn coordinate(&mut self, n: u32) -> (value: u32)
        requires
            0 < n,
        ensures
            value < n,
    {
        draw_range(&mut self.source, 0, n as usize) as u32
    }

    /// A coordinate drawn from `low..=high`.
    pub fn coordinate_between(&mut self, low: u32, high: u32) -> (value: u32)
        requires
            low <= high,
        ensures
            low <= value <= high,
    {
        if high as usize == usize::MAX {
            if low == high {
                low
            } else {
                let v = draw_range(&mut self.source, low as usize, high as usize);
                v as u32
            }
        } else {
            draw_range(&mut self.source, low as usize, high as usize + 1) as u32
        }
    }

    /// `true` with probability `numerator / denominator`: never for a zero
    /// numerator, always when the two are equal.
    pub fn chance(&mut self, numerator: u32, denominator: u32) -> (hit: bool)
        requires
            0 < denominator,
            numerator <= denominator,
        ensures
            numerator == 0 ==> !hit,
            numerator == denominator ==> hit,
    {
        draw_ratio(&mut self.source, numerator, denominator)
    }

    /// `true` with a probability given in millionths; amounts above one
    /// million count as certainty.
    pub fn happens(&mut self, millionths: u32) -> (hit: bool)
        ensures
            millionths == 0 ==> !hit,
            millionths >= MILLION ==> hit,
    {
        if millionths >= MILLION {
            true
        } else {
            draw_ratio(&mut self.source, millionths, MILLION)
        }
    }

    /// Shuffles `items` in place: each position in turn is swapped with a
    /// position drawn from those not yet fixed. The result is a permutation
    /// of what was there.
    pub fn shuffle<T: Copy>(&mut self, items: &mut Vec<T>)
        ensures
            final(items)@.to_multiset() == old(items)@.to_multiset(),
            final(items)@.len() == old(items)@.len(),
            forall|i: int|
                0 <= i < final(items)@.len() ==> old(items)@.contains(#[trigger] final(items)@[i]),
            forall|i: int|
                0 <= i < old(items)@.len() ==> final(items)@.contains(#[trigger] old(items)@[i]),
    {
        let n = items.len();
        let mut i: usize = 0;
        while i < n
            invariant
                0 <= i <= n,
                items@.len() == n,
                items@.to_multiset() == old(items)@.to_multiset(),
            decreases n - i,
        {
            let j = self.between(i, n);
            let first = items[i];
            let second = items[j];
            let ghost before = items@;
            items[i] = second;
            items[j] = first;
            proof {
                lemma_swap_permutes(before, i as int, j as int);
                assert(items@ =~= before.update(i as int, before[j as int]).update(
                    j as int,
                    before[i as int],
                ));
            }
            i += 1;
        }
        proof {
            lemma_permutation_members(old(items)@, items@);
        }
    }
}

/// Swapping two entries of a sequence permutes it.
pub proof fn lemma_swap_permutes<T>(s: Seq<T>, i: int, j: int)
    requires
        0 <= i < s.len(),
        0 <= j < s.len(),
    ensures
        s.update(i, s[j]).update(j, s[i]).to_multiset() == s.to_multiset(),
{
    broadcast use vstd::multiset::group_multiset_axioms;

    let t = s.update(i, s[j]);
    vstd::seq_lib::to_multiset_update(s, i, s[j]);
    vstd::seq_lib::to_multiset_update(t, j, s[i]);
    vstd::seq_lib::to_multiset_contains(s, s[i]);
    vstd::seq_lib::to_multiset_contains(s, s[j]);
    assert(s.contains(s[i]));
    assert(s.contains(s[j]));
    assert(t.update(j, s[i]).to_multiset() =~= s.to_multiset());
}

/// Two sequences with the same multiset of entries have the same length
/// and the same members.
pub proof fn lemma_permutation_members<T>(s: Seq<T>, t: Seq<T>)
    requires
        s.to_multiset() == t.to_multiset(),
    ensures
        s.len() == t.len(),
        forall|i: int| 0 <= i < t.len() ==> s.contains(#[trigger] t[i]),
        forall|i: int| 0 <= i < s.len() ==> t.contains(#[trigger] s[i]),
{
    vstd::seq_lib::to_multiset_len(s);
    vstd::seq_lib::to_multiset_len(t);
    assert forall|i: int| 0 <= i < t.len() implies s.contains(#[trigger] t[i]) by {
        assert(t.contains(t[i]));
        vstd::seq_lib::to_multiset_contains(t, t[i]);
        vstd::seq_lib::to_multiset_contains(s, t[i]);
    }
    assert forall|i: int| 0 <= i < s.len() implies t.contains(#[trigger] s[i]) by {
        assert(s.contains(s[i]));
        vstd::seq_lib::to_multiset_contains(t, s[i]);
        vstd::seq_lib::to_multiset_contains(s, s[i]);
    }
}

} // verus!
