use bao_hash::CHUNK_SIZE;
use bao_hash::Finalization;
use bao_hash::encode_len;
use bao_hash::hash;
use bao_hash::hash_node;
use bao_hash::parent_hash;

/// Compute a node digest directly with blake2b_simd, as an independent
/// reference: feed the parts, then for a root feed the little-endian length
/// and set the last-node flag.
fn reference_node(parts: &[&[u8]], root_len: Option<u64>) -> [u8; 32] {
    let mut params = blake2b_simd::Params::new();
    params.hash_length(32);
    let mut state = params.to_state();
    for part in parts {
        state.update(part);
    }
    if let Some(len) = root_len {
        state.update(&len.to_le_bytes());
        state.set_last_node(true);
    }
    let digest = state.finalize();
    let mut out = [0u8; 32];
    out.copy_from_slice(digest.as_bytes());
    out
}

#[test]
fn test_encode_len_is_little_endian() {
    let bytes = encode_len(0x0807060504030201);
    assert_eq!(bytes, vec![1, 2, 3, 4, 5, 6, 7, 8]);
    assert_eq!(encode_len(0), vec![0; 8]);
}

#[test]
fn test_vector_empty() {
    let expected = reference_node(&[], Some(0));
    assert_eq!(hash(&[]), expected);
}

#[test]
fn test_vector_one_byte() {
    let input = [0x42u8];
    let expected = reference_node(&[&input], Some(1));
    assert_eq!(hash(&input), expected);
    assert_eq!(hash_node(&input, Finalization::Root(1)), expected);
}

#[test]
fn test_vector_one_chunk() {
    let input = vec![0x42u8; CHUNK_SIZE];
    let expected = reference_node(&[&input], Some(CHUNK_SIZE as u64));
    assert_eq!(hash(&input), expected);
}

#[test]
fn test_vector_chunk_plus_one() {
    let input = vec![0x42u8; CHUNK_SIZE + 1];
    let left = reference_node(&[&input[..CHUNK_SIZE]], None);
    let right = reference_node(&[&input[CHUNK_SIZE..]], None);
    let expected = reference_node(&[&left, &right], Some(CHUNK_SIZE as u64 + 1));
    assert_eq!(hash(&input), expected);
    let left_lib = hash_node(&input[..CHUNK_SIZE], Finalization::NotRoot);
    let right_lib = hash_node(&input[CHUNK_SIZE..], Finalization::NotRoot);
    let expected_lib = parent_hash(
        &left_lib,
        &right_lib,
        Finalization::Root(CHUNK_SIZE as u64 + 1),
    );
    assert_eq!(hash(&input), expected_lib);
}

#[test]
fn test_vector_four_chunks() {
    let input = vec![0x42u8; 4 * CHUNK_SIZE];
    let c = reference_node(&[&input[..CHUNK_SIZE]], None);
    let p = reference_node(&[&c, &c], None);
    let expected = reference_node(&[&p, &p], Some(4 * CHUNK_SIZE as u64));
    assert_eq!(hash(&input), expected);
}

#[test]
fn test_vector_four_chunks_plus_one() {
    let input = vec![0x42u8; 4 * CHUNK_SIZE + 1];
    let c = reference_node(&[&input[..CHUNK_SIZE]], None);
    let p = reference_node(&[&c, &c], None);
    let left = reference_node(&[&p, &p], None);
    let right = reference_node(&[&input[4 * CHUNK_SIZE..]], None);
    let expected = reference_node(&[&left, &right], Some(4 * CHUNK_SIZE as u64 + 1));
    assert_eq!(hash(&input), expected);
}
