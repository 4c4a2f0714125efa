//! Random point sets and random query indices, for trying the index out.

use vstd::prelude::*;
use rand::distributions::{Distribution, Uniform};
use rand::rngs::ThreadRng;

verus! {

/// The thread-local random number generator of `rand`, a value that
/// nothing here looks into.
#[verifier::external_type_specification]
#[verifier::external_body]
pub struct ExThreadRng(ThreadRng);

/// `rand::thread_rng` hands out the generator of the calling thread.
/// Nothing is claimed of it.
pub assume_specification[ rand::thread_rng ]() -> (rng: ThreadRng);

/// Draws one coordinate with `Uniform::new(low, high)` of `rand` and its
/// `sample`.
///
/// Taken from the source of `rand` and not proved here: given `low < high`,
/// without which `Uniform::new` panics, the value drawn lies in the
/// half-open range from `low` up to but not including `high`. Which value
/// of the range comes is left open.
#[verifier::external_body]
fn sample_coordinate(rng: &mut ThreadRng, low: i32, high: i32) -> (value: i32)
    requires
        low < high,
    ensures
        low <= value < high,
{
    Uniform::new(low, high).sample(rng)
}

/// Draws one index with `Uniform::new(0, max)` of `rand` and its `sample`.
///
/// Taken from the source of `rand` and not proved here: given `0 < max`,
/// without which `Uniform::new` panics, the value drawn is below `max`.
/// Which value comes is left open.
#[verifier::external_body]
fn sample_index(rng: &mut ThreadRng, max: usize) -> (value: usize)
    requires
        0 < max,
    ensures
        value < max,
{
    Uniform::new(0, max).sample(rng)
}

/// Create `n` random points with every coordinate in the range from `-size`
/// up to but not including `size`, which must be positive.
pub fn random_points<const D: usize>(n: usize, size: i32) -> (points: Vec<[i32; D]>)
    requires
        size > 0,
    ensures
        points@.len() == n,
        forall|i: int, a: int|
            0 <= i < n && 0 <= a < D ==> -size <= #[trigger] points@[i]@[a] < size,
{
    let mut rng = rand::thread_rng();
    let mut points: Vec<[i32; D]> = Vec::new();
    while points.len() < n
        invariant
            size > 0,
            points@.len() <= n,
            forall|i: int, a: int|
                0 <= i < points@.len() && 0 <= a < D ==> -size <= #[trigger] points@[i]@[a] < size,
        decreases n - points@.len(),
    {
        let mut point = [0i32; D];
        let mut axis: usize = 0;
        while axis < D
            invariant
                size > 0,
                axis <= D,
                forall|a: int| 0 <= a < axis ==> -size <= #[trigger] point@[a] < size,
            decreases D - axis,
        {
            point[axis] = sample_coordinate(&mut rng, -size, size);
            axis += 1;
        }
        points.push(point);
    }
    points
}

/// Create `n` random indices in the range `0..max`, which must not be empty.
pub fn random_indices(n: usize, max: usize) -> (indices: Vec<usize>)
    requires
        max > 0,
    ensures
        indices@.len() == n,
        forall|i: int| 0 <= i < n ==> #[trigger] indices@[i] < max,
{
    let mut rng = rand::thread_rng();
    let mut indices: Vec<usize> = Vec::new();
    while indices.len() < n
        invariant
            max > 0,
            indices@.len() <= n,
            forall|i: int| 0 <= i < indices@.len() ==> #[trigger] indices@[i] < max,
        decreases n - indices@.len(),
    {
        let drawn = sample_index(&mut rng, max);
        indices.push(drawn);
    }
    indices
}

} // verus!
