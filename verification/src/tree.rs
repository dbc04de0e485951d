//! The recursive tree hash: the specification of the whole scheme, the
//! single-shot hasher, and the parallel variant of it.
use vstd::prelude::*;
use vstd::slice::slice_subrange;
use crate::CHUNK_SIZE;
use crate::MAX_SINGLE_THREADED;
use crate::geometry::is_chunk_pow2;
use crate::geometry::lemma_chunk_pow2_ge;
use crate::geometry::lemma_left_len;
use crate::geometry::lemma_left_len_exact;
use crate::geometry::spec_left_len;
use crate::node::Finalization;
use crate::node::hash_node;
use crate::node::parent_hash;
use crate::node::spec_hash_node;
use crate::node::spec_parent_hash;

verus! {

/// The digest of the tree over `input` under `fin`: inputs of at most one
/// chunk are a single leaf; anything larger splits at the largest left
/// perfect subtree, the children are hashed as interior nodes, and their
/// digests are combined into a parent.
pub open spec fn spec_tree_hash(input: Seq<u8>, fin: Finalization) -> Seq<u8>
    decreases input.len(),
    via spec_tree_hash_decreases
{
    if input.len() <= CHUNK_SIZE {
        spec_hash_node(input, fin)
    } else {
        spec_parent_hash(
            spec_tree_hash(input.take(spec_left_len(input.len()) as int), Finalization::NotRoot),
            spec_tree_hash(input.skip(spec_left_len(input.len()) as int), Finalization::NotRoot),
            fin,
        )
    }
}

#[via_fn]
proof fn spec_tree_hash_decreases(input: Seq<u8>, fin: Finalization) {
    if input.len() > CHUNK_SIZE {
        lemma_left_len(input.len());
    }
}

/// The root digest of `input`: the tree hash finalized with the total
/// length.
pub open spec fn spec_hash(input: Seq<u8>) -> Seq<u8>
    recommends input.len() <= u64::MAX,
{
    spec_tree_hash(input, Finalization::Root(input.len() as u64))
}

/// Joining two adjacent subtrees: when the left side is a chunk-aligned
/// power of two and the right side is nonempty and no larger, the tree hash
/// of the concatenation is exactly the parent of the two subtree hashes.
pub proof fn lemma_tree_compose(a: Seq<u8>, b: Seq<u8>, fin: Finalization)
    requires
        is_chunk_pow2(a.len()),
        1 <= b.len() <= a.len(),
    ensures
        spec_tree_hash(a + b, fin) == spec_parent_hash(
            spec_tree_hash(a, Finalization::NotRoot),
            spec_tree_hash(b, Finalization::NotRoot),
            fin,
        ),
{
    lemma_chunk_pow2_ge(a.len());
    lemma_left_len_exact(a.len(), b.len());
    assert((a + b).len() > CHUNK_SIZE);
    assert(spec_left_len((a + b).len()) == a.len());
    assert((a + b).take(a.len() as int) =~= a);
    assert((a + b).skip(a.len() as int) =~= b);
}

/// Hash a slice by direct recursion on the calling thread.
pub fn hash_recurse(input: &[u8], finalization: Finalization) -> (r: [u8; 32])
    ensures
        r@ == spec_tree_hash(input@, finalization),
    decreases input@.len(),
{
    if input.len() <= CHUNK_SIZE {
        return hash_node(input, finalization);
    }
    proof {
        lemma_left_len(input@.len());
    }
    let llen = crate::geometry::left_len(input.len() as u64);
    let left = slice_subrange(input, 0, llen as usize);
    let right = slice_subrange(input, llen as usize, input.len());
    proof {
        assert(left@ =~= input@.take(llen as int));
        assert(right@ =~= input@.skip(llen as int));
    }
    let left_hash = hash_recurse(left, Finalization::NotRoot);
    let right_hash = hash_recurse(right, Finalization::NotRoot);
    parent_hash(&left_hash, &right_hash, finalization)
}

/// Relies on rayon::join: it runs the two closures, each of which only
/// calls `hash_recurse_rayon`, and returns the pair of their results.
#[verifier::external_body]
fn join_subtrees(left: &[u8], right: &[u8]) -> (r: ([u8; 32], [u8; 32]))
    ensures
        r.0@ == spec_tree_hash(left@, Finalization::NotRoot),
        r.1@ == spec_tree_hash(right@, Finalization::NotRoot),
{
    rayon::join(
        || hash_recurse_rayon(left, Finalization::NotRoot),
        || hash_recurse_rayon(right, Finalization::NotRoot),
    )
}

/// Hash a slice recursively, handing the two sides of every split to the
/// thread pool in parallel. Produces the same digest as `hash_recurse`.
pub fn hash_recurse_rayon(input: &[u8], finalization: Finalization) -> (r: [u8; 32])
    ensures
        r@ == spec_tree_hash(input@, finalization),
    decreases input@.len(),
{
    if input.len() <= CHUNK_SIZE {
        return hash_node(input, finalization);
    }
    proof {
        lemma_left_len(input@.len());
    }
    let llen = crate::geometry::left_len(input.len() as u64);
    let left = slice_subrange(input, 0, llen as usize);
    let right = slice_subrange(input, llen as usize, input.len());
    proof {
        assert(left@ =~= input@.take(llen as int));
        assert(right@ =~= input@.skip(llen as int));
    }
    let (left_hash, right_hash) = join_subtrees(left, right);
    parent_hash(&left_hash, &right_hash, finalization)
}

/// Hash a slice of input bytes all at once. Above `MAX_SINGLE_THREADED`
/// bytes the recursion is parallelized; the digest is the same either way.
pub fn hash(input: &[u8]) -> (r: [u8; 32])
    ensures
        r@ == spec_hash(input@),
{
    if input.len() <= MAX_SINGLE_THREADED {
        hash_recurse(input, Finalization::Root(input.len() as u64))
    } else {
        hash_recurse_rayon(input, Finalization::Root(input.len() as u64))
    }
}

} // verus!
