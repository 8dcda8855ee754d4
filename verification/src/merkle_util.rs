//! Index arithmetic for a dense Merkle tree laid out as a flat array, where
//! node `i`'s children are `2i + 1` and `2i + 2`.

use vstd::arithmetic::power2::{lemma2_to64, lemma_pow2_unfold, pow2};
use vstd::pervasive::cloned;
use vstd::prelude::*;

verus! {

/// Returns the sibling index of a node; the root is its own sibling.
pub fn sibling(index: usize) -> (r: usize)
    requires
        index < usize::MAX,
    ensures
        index == 0 ==> r == 0,
        index != 0 && index % 2 == 0 ==> r == index - 1,
        index % 2 == 1 ==> r == index + 1,
{
    if index == 0 {
        0
    } else if index % 2 == 0 {
        index - 1
    } else {
        index + 1
    }
}

/// Returns the parent index of a non-root node.
pub fn parent(index: usize) -> (r: usize)
    requires
        index >= 1,
    ensures
        r == (index - 1) / 2,
{
    (index - 1) / 2
}

/// Returns the number of internal nodes a tree over `leaf_count` leaves adds.
pub fn extra_hash_count(leaf_count: usize) -> (r: usize)
    requires
        leaf_count >= 1,
    ensures
        r == leaf_count - 1,
{
    leaf_count - 1
}

/// Pads a vector with clones of `default_value` until its length is the next
/// power of two: the smallest power of two no shorter than the input (one
/// element for an empty input), so the result is always less than twice the
/// input's length. Existing elements stay untouched.
pub fn extend_to_power_of_two<T: Clone>(input: &mut Vec<T>, default_value: T)
    requires
        old(input)@.len() <= usize::MAX / 2 + 1,
    ensures
        exists|k: nat| final(input)@.len() == #[trigger] pow2(k),
        final(input)@.len() >= old(input)@.len(),
        final(input)@.len() >= 1,
        old(input)@.len() >= 1 ==> final(input)@.len() < 2 * old(input)@.len(),
        old(input)@.len() == 0 ==> final(input)@.len() == 1,
        final(input)@.subrange(0, old(input)@.len() as int) == old(input)@,
        forall|i: int|
            old(input)@.len() <= i < final(input)@.len() ==> cloned::<T>(
                default_value,
                #[trigger] final(input)@[i],
            ),
{
    proof {
        lemma2_to64();
        assert(pow2(0) == 1);
    }
    let len = input.len();
    let mut target: usize = 1;
    while target < len
        invariant
            len <= usize::MAX / 2 + 1,
            exists|k: nat| target == #[trigger] pow2(k),
            target >= 1,
            target == 1 || target / 2 < len,
        decreases 2 * len - target,
    {
        proof {
            let k = choose|k: nat| target == pow2(k);
            lemma_pow2_unfold(k + 1);
            assert(2 * target == pow2(k + 1));
        }
        target = target * 2;
    }
    while input.len() < target
        invariant
            target >= 1,
            exists|k: nat| target == #[trigger] pow2(k),
            target == 1 || target / 2 < old(input)@.len(),
            target >= old(input)@.len(),
            input@.len() >= old(input)@.len(),
            input@.len() <= target,
            input@.subrange(0, old(input)@.len() as int) == old(input)@,
            forall|i: int|
                old(input)@.len() <= i < input@.len() ==> cloned::<T>(
                    default_value,
                    #[trigger] input@[i],
                ),
        decreases target - input.len(),
    {
        let padding = default_value.clone();
        input.push(padding);
        proof {
            assert(input@.subrange(0, old(input)@.len() as int) =~= old(input)@);
        }
    }
}

/// Returns the number of leaves in a tree of `tree_len` nodes.
pub fn number_of_leaves(tree_len: usize) -> (r: usize)
    requires
        tree_len < usize::MAX,
    ensures
        r == (tree_len + 1) / 2,
{
    (tree_len + 1) / 2
}

} // verus!
