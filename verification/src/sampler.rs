//! Inverse iteration sampler: a random walk backwards through a two-branch
//! inverse relation, collecting the points that follow a transient prefix.

use vstd::prelude::*;

use crate::geometry::Point;
use crate::subdivision::ForwardMap;

verus! {

/// A source of branch-selection bits. Nothing is assumed of the values: the
/// sampler's contract holds whatever bits come back.
pub trait BitSource {
    /// Hands out the next bit.
    fn next_bit(&mut self) -> bool;
}

/// Fair-coin bit source backed by the thread-local random generator.
pub struct RandomBits;

/// Relies on rand::random: draws a value of any type the standard-uniform
/// distribution covers from the thread-local generator. Nothing can be
/// promised of a random value, so no result is stated.
pub assume_specification<T>[ rand::random::<T> ]() -> T
    where
        rand::distr::StandardUniform: rand::distr::Distribution<T>,
;

impl BitSource for RandomBits {
    fn next_bit(&mut self) -> bool {
        rand::random::<bool>()
    }
}

/// The point reached from `seed` by taking, for each choice in order, the
/// first branch on `true` and the second on `false`.
pub open spec fn walk_spec<A: ForwardMap, B: ForwardMap>(
    branch_a: &A,
    branch_b: &B,
    seed: Point,
    choices: Seq<bool>,
) -> Point
    decreases choices.len(),
{
    if choices.len() == 0 {
        seed
    } else {
        let prev = walk_spec(branch_a, branch_b, seed, choices.drop_last());
        if choices.last() {
            branch_a.map_spec(prev)
        } else {
            branch_b.map_spec(prev)
        }
    }
}

/// `pts` records, step by step, the walk from `seed` along `choices`, with
/// the first `transient` steps discarded.
pub open spec fn is_branch_walk<A: ForwardMap, B: ForwardMap>(
    branch_a: &A,
    branch_b: &B,
    seed: Point,
    choices: Seq<bool>,
    pts: Seq<Point>,
    total: nat,
    transient: nat,
) -> bool {
    &&& choices.len() == total
    &&& pts.len() == total - transient
    &&& forall|i: int|
        0 <= i < pts.len() ==> #[trigger] pts[i] == walk_spec(
            branch_a,
            branch_b,
            seed,
            choices.take(transient + 1 + i),
        )
}

/// Random inverse iteration: starting from `seed`, repeatedly steps to one of
/// the two branches, chosen by the bit source, and records every point after
/// the first `transient` steps. Exactly `total_iterations - transient` points
/// come back, they trace one branch walk from the seed, and each recorded
/// point is the image of its predecessor under one of the two branches.
pub fn sample_inverse_iteration<A: ForwardMap, B: ForwardMap, S: BitSource>(
    branch_a: &A,
    branch_b: &B,
    bits: &mut S,
    seed: Point,
    total_iterations: usize,
    transient: usize,
) -> (r: Vec<Point>)
    requires
        transient < total_iterations,
    ensures
        r@.len() == total_iterations - transient,
        exists|c: Seq<bool>|
            is_branch_walk(branch_a, branch_b, seed, c, r@, total_iterations as nat, transient as nat),
        forall|i: int|
            0 <= i < r@.len() - 1 ==> #[trigger] r@[i + 1] == branch_a.map_spec(r@[i]) || r@[i + 1]
                == branch_b.map_spec(r@[i]),
{
    let mut out: Vec<Point> = Vec::new();
    let mut z = seed;
    let ghost mut c: Seq<bool> = Seq::empty();
    let mut k: usize = 0;
    while k < total_iterations
        invariant
            k <= total_iterations,
            transient < total_iterations,
            c.len() == k,
            z == walk_spec(branch_a, branch_b, seed, c),
            out@.len() == if k >= transient {
                k - transient
            } else {
                0
            },
            forall|i: int|
                0 <= i < out@.len() ==> #[trigger] out@[i] == walk_spec(
                    branch_a,
                    branch_b,
                    seed,
                    c.take(transient + 1 + i),
                ),
            forall|i: int|
                0 <= i < out@.len() - 1 ==> #[trigger] out@[i + 1] == branch_a.map_spec(out@[i])
                    || out@[i + 1] == branch_b.map_spec(out@[i]),
            out@.len() > 0 ==> out@.last() == z,
        decreases total_iterations - k,
    {
        let bit = bits.next_bit();
        let znew = if bit {
            branch_a.apply(z)
        } else {
            branch_b.apply(z)
        };
        proof {
            let c2 = c.push(bit);
            assert(c2.drop_last() =~= c);
            assert forall|j: int| 0 <= j <= c.len() implies #[trigger] c2.take(j) =~= c.take(j) by {}
            assert(c2.take(c2.len() as int) =~= c2);
            c = c2;
        }
        z = znew;
        if k >= transient {
            out.push(z);
        }
        k += 1;
    }
    proof {
        assert(is_branch_walk(branch_a, branch_b, seed, c, out@, total_iterations as nat, transient as nat));
    }
    out
}

/// Law: a property of points that both branches preserve holds at every point
/// of every branch walk from a seed that has it — whatever the branch
/// choices were.
pub proof fn lemma_walk_preserves<A: ForwardMap, B: ForwardMap>(
    branch_a: &A,
    branch_b: &B,
    seed: Point,
    choices: Seq<bool>,
    property: spec_fn(Point) -> bool,
)
    requires
        property(seed),
        forall|p: Point|
            #![trigger branch_a.map_spec(p)]
            #![trigger branch_b.map_spec(p)]
            property(p) ==> property(branch_a.map_spec(p)) && property(branch_b.map_spec(p)),
    ensures
        property(walk_spec(branch_a, branch_b, seed, choices)),
    decreases choices.len(),
{
    if choices.len() > 0 {
        lemma_walk_preserves(branch_a, branch_b, seed, choices.drop_last(), property);
    }
}

} // verus!
