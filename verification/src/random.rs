//! Random choices: which nodes the fire starts at.
use rand::Rng;
use vstd::prelude::*;

verus! {

/// The thread-local random number generator of the `rand` crate. Nothing is
/// known of its state.
#[verifier::external_type_specification]
#[verifier::external_body]
pub struct ExThreadRng(rand::rngs::ThreadRng);

/// `rand::thread_rng` hands out the generator of the current thread. Nothing
/// is claimed of what it returns.
pub assume_specification[ rand::thread_rng ]() -> (rng: rand::rngs::ThreadRng);

/// Draws an index below `bound` with `rand::Rng::gen_range` on the range
/// `0..bound`. The range must not be empty, else `gen_range` panics. Of the
/// index only its range is claimed: it differs from call to call.
#[verifier::external_body]
fn random_below(rng: &mut rand::rngs::ThreadRng, bound: usize) -> (index: usize)
    requires
        bound > 0,
    ensures
        index < bound,
{
    rng.gen_range(0..bound)
}

/// Takes the candidate at `index` out of `candidates`. The last candidate
/// moves to its place.
pub fn take_candidate(candidates: &mut Vec<usize>, index: usize) -> (taken: usize)
    requires
        index < old(candidates)@.len(),
        old(candidates)@.no_duplicates(),
    ensures
        taken == old(candidates)@[index as int],
        final(candidates)@ == old(candidates)@.update(
            index as int,
            old(candidates)@.last(),
        ).drop_last(),
        final(candidates)@.no_duplicates(),
        forall|x: usize|
            final(candidates)@.contains(x) <==> old(candidates)@.contains(x) && x != taken,
{
    let taken = candidates.swap_remove(index);
    proof {
        let before = old(candidates)@;
        let after = candidates@;
        assert forall|x: usize| after.contains(x) <==> before.contains(x) && x != taken by {
            if after.contains(x) {
                let i = choose|i: int| 0 <= i < after.len() && after[i] == x;
                if i == index {
                    assert(before[before.len() - 1] == x);
                } else {
                    assert(before[i] == x);
                }
            }
            if before.contains(x) && x != taken {
                let i = choose|i: int| 0 <= i < before.len() && before[i] == x;
                if i == before.len() - 1 {
                    assert(after[index as int] == x);
                } else {
                    assert(after[i] == x);
                }
            }
        }
    }
    taken
}

/// Draws `num_roots` distinct nodes of `num_nodes`, each node that is left
/// being as likely as any other at every draw.
pub fn draw_roots(num_roots: usize, num_nodes: usize) -> (roots: Vec<usize>)
    requires
        num_roots <= num_nodes,
    ensures
        roots@.len() == num_roots,
        roots@.no_duplicates(),
        forall|i: int| 0 <= i < roots@.len() ==> (#[trigger] roots@[i]) < num_nodes,
{
    let mut candidates: Vec<usize> = Vec::new();
    let mut v: usize = 0;
    while v < num_nodes
        invariant
            v <= num_nodes,
            candidates@.len() == v,
            forall|i: int| 0 <= i < v ==> candidates@[i] == i,
        decreases num_nodes - v,
    {
        candidates.push(v);
        v += 1;
    }
    let mut rng = rand::thread_rng();
    let mut roots: Vec<usize> = Vec::new();
    while roots.len() < num_roots
        invariant
            num_roots <= num_nodes,
            roots@.len() <= num_roots,
            candidates@.len() == num_nodes - roots@.len(),
            candidates@.no_duplicates(),
            roots@.no_duplicates(),
            forall|i: int| 0 <= i < candidates@.len() ==> (#[trigger] candidates@[i]) < num_nodes,
            forall|i: int| 0 <= i < roots@.len() ==> (#[trigger] roots@[i]) < num_nodes,
            forall|x: usize| roots@.contains(x) ==> !candidates@.contains(x),
        decreases num_roots - roots@.len(),
    {
        let index = random_below(&mut rng, candidates.len());
        let ghost left = candidates@;
        let ghost drawn = roots@;
        let root = take_candidate(&mut candidates, index);
        roots.push(root);
        proof {
            assert(left.contains(root));
            assert forall|x: usize| roots@.contains(x) implies !candidates@.contains(x) by {
                let i = choose|i: int| 0 <= i < roots@.len() && roots@[i] == x;
                if i < drawn.len() {
                    assert(drawn.contains(x));
                }
            }
            assert forall|i: int, j: int|
                0 <= i < roots@.len() && 0 <= j < roots@.len() && i != j implies roots@[i]
                != roots@[j] by {
                if i == drawn.len() {
                    assert(drawn.contains(roots@[j]));
                } else if j == drawn.len() {
                    assert(drawn.contains(roots@[i]));
                }
            }
        }
    }
    roots
}

} // verus!
