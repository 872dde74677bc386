use vstd::prelude::*;

use crate::color::Rgb8;
use crate::rng::{index_step_spec, seed_state_spec, Rng};

verus! {

/// Reservoir sampling of `limit` slots over the first `n` positions: which input position
/// each slot holds, and the generator state afterwards.
///
/// The first `limit` positions fill the slots in order; position `n - 1` then draws an index
/// below `n` and replaces that slot when the index falls below `limit`.
pub open spec fn reservoir_spec(limit: nat, seed: u64, n: nat) -> (Seq<int>, u64)
    decreases n,
{
    if n <= limit {
        (Seq::new(limit, |i: int| i), seed_state_spec(seed))
    } else {
        let (positions, state) = reservoir_spec(limit, seed, (n - 1) as nat);
        let (slot, next) = index_step_spec(state, n as usize);
        if (slot as nat) < limit {
            (positions.update(slot as int, n - 1), next)
        } else {
            (positions, next)
        }
    }
}

/// What `sample_pixels` returns: nothing for no pixels, every pixel when the limit is 0 or
/// reaches the pixel count, and otherwise the pixels at the reservoir's positions.
pub open spec fn sample_spec(pixels: Seq<Rgb8>, limit: nat, seed: u64) -> Seq<Rgb8> {
    if pixels.len() == 0 {
        Seq::empty()
    } else if limit == 0 || limit >= pixels.len() {
        pixels
    } else {
        reservoir_spec(limit, seed, pixels.len()).0.map_values(|p: int| pixels[p])
    }
}

/// The reservoir holds `limit` distinct positions, each below `max(n, limit)`.
pub proof fn lemma_reservoir_positions(limit: nat, seed: u64, n: nat)
    ensures
        reservoir_spec(limit, seed, n).0.len() == limit,
        forall|i: int|
            0 <= i < limit ==> 0 <= #[trigger] reservoir_spec(limit, seed, n).0[i] && (
            reservoir_spec(limit, seed, n).0[i] < n || reservoir_spec(limit, seed, n).0[i] < limit),
        forall|i: int, j: int|
            0 <= i < limit && 0 <= j < limit && i != j ==> #[trigger] reservoir_spec(limit, seed, n).0[i]
                != #[trigger] reservoir_spec(limit, seed, n).0[j],
    decreases n,
{
    if n > limit {
        lemma_reservoir_positions(limit, seed, (n - 1) as nat);
    }
}

/// Draws at most `sample_limit` pixels by reservoir sampling, seeded by `seed`.
/// A limit of 0, or one at or above the pixel count, keeps every pixel.
pub fn sample_pixels(pixels: &[Rgb8], sample_limit: usize, seed: u64) -> (sampled: Vec<Rgb8>)
    ensures
        sampled@ == sample_spec(pixels@, sample_limit as nat, seed),
{
    if pixels.len() == 0 {
        return Vec::new();
    }
    if sample_limit == 0 || sample_limit >= pixels.len() {
        return vstd::slice::slice_to_vec(pixels);
    }
    let ghost limit = sample_limit as nat;
    let mut rng = Rng::new(seed);
    let mut reservoir: Vec<Rgb8> = Vec::new();
    let mut i: usize = 0;
    while i < sample_limit
        invariant
            i <= sample_limit < pixels@.len(),
            reservoir@ == pixels@.take(i as int),
        decreases sample_limit - i,
    {
        reservoir.push(pixels[i]);
        i = i + 1;
        assert(reservoir@ =~= pixels@.take(i as int));
    }
    assert(reservoir@ =~= reservoir_spec(limit, seed, sample_limit as nat).0.map_values(
        |p: int| pixels@[p],
    ));
    let mut index: usize = sample_limit;
    while index < pixels.len()
        invariant
            0 < sample_limit <= index <= pixels@.len(),
            limit == sample_limit,
            rng.state() == reservoir_spec(limit, seed, index as nat).1,
            reservoir@ == reservoir_spec(limit, seed, index as nat).0.map_values(
                |p: int| pixels@[p],
            ),
        decreases pixels@.len() - index,
    {
        proof {
            lemma_reservoir_positions(limit, seed, index as nat);
        }
        let slot = rng.index(index + 1);
        if slot < sample_limit {
            reservoir.set(slot, pixels[index]);
        }
        index = index + 1;
        assert(reservoir@ =~= reservoir_spec(limit, seed, index as nat).0.map_values(
            |p: int| pixels@[p],
        ));
    }
    reservoir
}

/// The input positions that `sample_pixels` keeps, in output order.
pub open spec fn sample_positions_spec(n: nat, limit: nat, seed: u64) -> Seq<int> {
    if limit == 0 || limit >= n {
        Seq::new(n, |i: int| i)
    } else {
        reservoir_spec(limit, seed, n).0
    }
}

/// A sample holds `min(limit, n)` pixels (all `n` when the limit is 0), and they are the
/// pixels at distinct positions of the input: sampling never invents or repeats a pixel.
pub proof fn lemma_sample_draws_distinct_pixels(pixels: Seq<Rgb8>, limit: nat, seed: u64)
    ensures
        ({
            let positions = sample_positions_spec(pixels.len(), limit, seed);
            &&& sample_spec(pixels, limit, seed) == positions.map_values(|p: int| pixels[p])
            &&& positions.len() == if limit == 0 || limit >= pixels.len() {
                pixels.len()
            } else {
                limit
            }
            &&& forall|i: int|
                0 <= i < positions.len() ==> 0 <= #[trigger] positions[i] < pixels.len()
            &&& forall|i: int, j: int|
                0 <= i < positions.len() && 0 <= j < positions.len() && i != j
                    ==> #[trigger] positions[i] != #[trigger] positions[j]
        }),
{
    let positions = sample_positions_spec(pixels.len(), limit, seed);
    if limit == 0 || limit >= pixels.len() {
        assert(positions.map_values(|p: int| pixels[p]) =~= pixels);
        if pixels.len() == 0 {
            assert(sample_spec(pixels, limit, seed) =~= positions.map_values(|p: int| pixels[p]));
        }
    } else {
        lemma_reservoir_positions(limit, seed, pixels.len());
    }
}

} // verus!
