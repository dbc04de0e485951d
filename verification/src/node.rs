//! The node-hashing primitives: leaf (chunk) hashing, parent hashing, and
//! the finalization rule that separates the root domain from the interior
//! domain.
use vstd::prelude::*;
use vstd::slice::slice_index_get;
use crate::CHUNK_SIZE;

verus! {

/// A 32-byte digest.
pub type Hash = [u8; 32];

/// How a node is finalized. Interior nodes are hashed as they stand; the
/// root node additionally absorbs the total input length as eight
/// little-endian bytes and sets the Blake2b last-node flag.
#[derive(Clone, Copy, Debug)]
pub enum Finalization {
    NotRoot,
    Root(u64),
}

/// The little-endian encoding of `len` in eight bytes.
pub open spec fn spec_encode_len(len: u64) -> Seq<u8> {
    seq![
        (len % 0x100) as u8,
        ((len / 0x100) % 0x100) as u8,
        ((len / 0x10000) % 0x100) as u8,
        ((len / 0x1000000) % 0x100) as u8,
        ((len / 0x100000000) % 0x100) as u8,
        ((len / 0x10000000000) % 0x100) as u8,
        ((len / 0x1000000000000) % 0x100) as u8,
        ((len / 0x100000000000000) % 0x100) as u8,
    ]
}

/// The Blake2b-256 digest of `input`, with or without the last-node flag.
/// Named rather than spelled out: the Blake2b compression function is the
/// outside crate's business.
pub uninterp spec fn blake2b_digest(input: Seq<u8>, last_node: bool) -> Seq<u8>;

/// Relies on blake2b_simd's `Params::hash` with `hash_length(32)` and
/// `last_node` as given: the 32-byte Blake2b digest of the input bytes, a
/// function of the bytes and the flag alone.
#[verifier::external_body]
fn blake2b_256(input: &[u8], last_node: bool) -> (r: [u8; 32])
    ensures
        r@ == blake2b_digest(input@, last_node),
{
    let mut params = blake2b_simd::Params::new();
    params.hash_length(32);
    params.last_node(last_node);
    let digest = params.hash(input);
    let mut out = [0u8; 32];
    out.copy_from_slice(digest.as_bytes());
    out
}

/// The bytes absorbed for a node whose own content is `content`: the root
/// also absorbs the encoded total length.
pub open spec fn node_input(content: Seq<u8>, fin: Finalization) -> Seq<u8> {
    match fin {
        Finalization::NotRoot => content,
        Finalization::Root(len) => content + spec_encode_len(len),
    }
}

/// Whether the last-node flag is set under this finalization.
pub open spec fn is_root_fin(fin: Finalization) -> bool {
    fin is Root
}

/// The digest of a node hashed from a single buffer under `fin`.
pub open spec fn spec_hash_node(content: Seq<u8>, fin: Finalization) -> Seq<u8> {
    blake2b_digest(node_input(content, fin), is_root_fin(fin))
}

/// The digest of a parent node over two child digests under `fin`.
pub open spec fn spec_parent_hash(left: Seq<u8>, right: Seq<u8>, fin: Finalization) -> Seq<u8> {
    spec_hash_node(left + right, fin)
}

/// Append every byte of `src` to `dst`.
pub(crate) fn push_all(dst: &mut Vec<u8>, src: &[u8])
    ensures
        final(dst)@ == old(dst)@ + src@,
{
    let ghost dst0 = dst@;
    let mut i: usize = 0;
    while i < src.len()
        invariant
            i <= src@.len(),
            dst@ == dst0 + src@.take(i as int),
        decreases src@.len() - i,
    {
        dst.push(*slice_index_get(src, i));
        proof {
            assert(src@.take(i as int).push(src@[i as int]) =~= src@.take(i as int + 1));
        }
        i = i + 1;
    }
    proof {
        assert(src@.take(src@.len() as int) =~= src@);
    }
}

/// Append the eight-byte little-endian encoding of `len` to `dst`.
fn push_len_suffix(dst: &mut Vec<u8>, len: u64)
    ensures
        final(dst)@ == old(dst)@ + spec_encode_len(len),
{
    dst.push((len % 0x100) as u8);
    dst.push(((len / 0x100) % 0x100) as u8);
    dst.push(((len / 0x10000) % 0x100) as u8);
    dst.push(((len / 0x1000000) % 0x100) as u8);
    dst.push(((len / 0x100000000) % 0x100) as u8);
    dst.push(((len / 0x10000000000) % 0x100) as u8);
    dst.push(((len / 0x1000000000000) % 0x100) as u8);
    dst.push(((len / 0x100000000000000) % 0x100) as u8);
    proof {
        assert(dst@ =~= old(dst)@ + spec_encode_len(len));
    }
}

/// The eight-byte little-endian encoding of a total length.
pub fn encode_len(len: u64) -> (r: Vec<u8>)
    ensures
        r@ == spec_encode_len(len),
{
    let mut r: Vec<u8> = Vec::new();
    push_len_suffix(&mut r, len);
    proof {
        assert(Seq::<u8>::empty() + spec_encode_len(len) =~= spec_encode_len(len));
    }
    r
}

/// Hash one buffer of at most a chunk of bytes as a single node.
pub fn hash_node(chunk: &[u8], finalization: Finalization) -> (r: [u8; 32])
    requires
        chunk@.len() <= CHUNK_SIZE,
    ensures
        r@ == spec_hash_node(chunk@, finalization),
{
    let mut input: Vec<u8> = Vec::new();
    push_all(&mut input, chunk);
    let last_node = match finalization {
        Finalization::NotRoot => false,
        Finalization::Root(root_len) => {
            push_len_suffix(&mut input, root_len);
            true
        },
    };
    proof {
        assert(input@ =~= node_input(chunk@, finalization));
    }
    blake2b_256(input.as_slice(), last_node)
}

/// Hash a parent node: the left child digest, then the right child digest.
pub fn parent_hash(left_hash: &[u8; 32], right_hash: &[u8; 32], finalization: Finalization) -> (r:
    [u8; 32])
    ensures
        r@ == spec_parent_hash(left_hash@, right_hash@, finalization),
{
    let mut input: Vec<u8> = Vec::new();
    push_all(&mut input, left_hash.as_slice());
    push_all(&mut input, right_hash.as_slice());
    let last_node = match finalization {
        Finalization::NotRoot => false,
        Finalization::Root(root_len) => {
            push_len_suffix(&mut input, root_len);
            true
        },
    };
    proof {
        assert(input@ =~= node_input(left_hash@ + right_hash@, finalization));
    }
    blake2b_256(input.as_slice(), last_node)
}

} // verus!
