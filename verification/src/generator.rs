//! Grid generation: an n-by-n boolean mine layout, each cell drawn
//! independently from a two-outcome weighted distribution with relative
//! weight 1 for a mine against 5 for a safe cell (about one mine in six).

use crate::neighborhood::{grid_square, grid_view};
use rand::distributions::WeightedIndex;
use rand::prelude::Distribution;
use rand::rngs::ThreadRng;
use vstd::pervasive::unreached;
use vstd::prelude::*;

verus! {

#[verifier::external_type_specification]
#[verifier::external_body]
pub struct ExThreadRng(rand::rngs::ThreadRng);

/// An opaque holder for rand's WeightedIndex over u32 weights. The type's
/// own declaration is refused, since its generic bounds name rand's traits,
/// so the distribution lives behind this struct instead.
#[verifier::external_body]
pub struct WeightDist {
    dist: WeightedIndex<u32>,
}

/// The total of a list of weights.
pub open spec fn weight_sum(s: Seq<u32>) -> int
    decreases s.len(),
{
    if s.len() == 0 {
        0
    } else {
        weight_sum(s.drop_last()) + s.last()
    }
}

/// Relies on rand::thread_rng: a handle to the thread-local random
/// generator. Nothing is assumed of what it will produce.
#[verifier::external_body]
fn fresh_rng() -> ThreadRng {
    rand::thread_rng()
}

/// Relies on rand's WeightedIndex::new: it fails exactly on an empty weight
/// list, a negative weight (impossible for u32) or an all-zero total. The
/// caller keeps the total within the weight type, since the sum inside
/// would otherwise overflow.
#[verifier::external_body]
fn new_weighted_index(weights: &Vec<u32>) -> (dist: Option<WeightDist>)
    requires
        weight_sum(weights@) <= u32::MAX,
    ensures
        (dist is Some) == (weights@.len() > 0 && weight_sum(weights@) > 0),
{
    match WeightedIndex::new(weights) {
        Ok(d) => Some(WeightDist { dist: d }),
        Err(_) => None,
    }
}

/// Relies on rand's Distribution::sample for WeightedIndex: the index of
/// one weight, drawn at random. Nothing is assumed of the outcome; callers
/// handle every index.
#[verifier::external_body]
fn sample_index(dist: &WeightDist, rng: &mut ThreadRng) -> usize {
    dist.dist.sample(rng)
}

/// Fills an n-by-n grid cell by cell, each independently a mine with
/// relative weight 1 against 5 for safe. Only the shape of the outcome can
/// be promised: the contents are random.
#[verifier::loop_isolation(false)]
pub fn generate_bombs(n: usize) -> (bombs: Vec<Vec<bool>>)
    requires
        n >= 1,
    ensures
        bombs@.len() == n,
        grid_square(grid_view(&bombs), n as int),
{
    let mut rng = fresh_rng();
    // index 0 = bomb with weight 1; index 1 = safe with weight 5
    let mut weights: Vec<u32> = Vec::new();
    weights.push(1);
    weights.push(5);
    proof {
        assert(weights@ =~= seq![1u32, 5u32]);
        assert(seq![1u32, 5u32].drop_last() =~= seq![1u32]);
        assert(seq![1u32].drop_last() =~= Seq::<u32>::empty());
        assert(weight_sum(Seq::<u32>::empty()) == 0);
        assert(weight_sum(seq![1u32]) == 1);
        assert(weight_sum(seq![1u32, 5u32]) == 6);
        assert(weight_sum(weights@) == 6);
    }
    let dist = match new_weighted_index(&weights) {
        Some(d) => d,
        None => unreached(),
    };
    let mut bombs: Vec<Vec<bool>> = Vec::new();
    let mut r: usize = 0;
    while r < n
        invariant
            0 <= r <= n,
            bombs@.len() == r,
            forall|i: int| 0 <= i < r ==> (#[trigger] bombs@[i]@).len() == n,
        decreases n - r,
    {
        let mut row: Vec<bool> = Vec::new();
        let mut c: usize = 0;
        while c < n
            invariant
                0 <= c <= n,
                row@.len() == c,
            decreases n - c,
        {
            let idx = sample_index(&dist, &mut rng);
            row.push(idx == 0);
            c = c + 1;
        }
        bombs.push(row);
        r = r + 1;
    }
    bombs
}

} // verus!
