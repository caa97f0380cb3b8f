use merkle_vcs::blake3_hash::{concat_and_hash, hash_bytes, Blake3Hash};
use merkle_vcs::blake3_merkle::Blake3MerkleHasher;
use merkle_vcs::fields::{u32_to_le_bytes, u64_to_le_bytes, M31, QM31};
use merkle_vcs::ops::MerkleHasher;
use merkle_vcs::poseidon31_hash::Poseidon31Hash;
use merkle_vcs::poseidon31_merkle::{hash_node_input, root_to_felts};

#[test]
fn test_hash_bytes_matches_blake3() {
    // The trusted wrapper returns what the blake3 crate computes, not its
    // input.
    let data = b"merkle commitment test vector";
    let ours = hash_bytes(data);
    let theirs = blake3::hash(data);
    assert_eq!(ours.to_vec().as_slice(), theirs.as_bytes());
    assert_ne!(ours.to_vec().as_slice(), &data[..]);
}

#[test]
fn test_concat_and_hash_matches_blake3() {
    let a = hash_bytes(b"left");
    let b = hash_bytes(b"right");
    let combined = concat_and_hash(&a, &b);
    let mut buf = Vec::new();
    buf.extend_from_slice(&a.to_vec());
    buf.extend_from_slice(&b.to_vec());
    assert_eq!(combined.to_vec().as_slice(), blake3::hash(&buf).as_bytes());
}

#[test]
fn test_hash_node_leaf_chains_column_values() {
    // A leaf with one value hashes the chained column digest of the value's
    // four little-endian bytes.
    let v = M31::new(0x01020304);
    let leaf = Blake3MerkleHasher::hash_node(None, &[v]);
    let chain1 = blake3::hash(&v.value.to_le_bytes());
    let expected = blake3::hash(chain1.as_bytes());
    assert_eq!(leaf.to_vec().as_slice(), expected.as_bytes());

    // Two values chain from the last value to the first.
    let v2 = M31::new(99);
    let leaf2 = Blake3MerkleHasher::hash_node(None, &[v, v2]);
    let inner = blake3::hash(&v2.value.to_le_bytes());
    let mut buf = v.value.to_le_bytes().to_vec();
    buf.extend_from_slice(inner.as_bytes());
    let chain2 = blake3::hash(&buf);
    assert_eq!(leaf2.to_vec().as_slice(), blake3::hash(chain2.as_bytes()).as_bytes());
}

#[test]
fn test_hash_node_interior_orders_children() {
    let l = hash_bytes(b"l");
    let r = hash_bytes(b"r");
    let parent = Blake3MerkleHasher::hash_node(Some((l, r)), &[]);
    let swapped = Blake3MerkleHasher::hash_node(Some((r, l)), &[]);
    assert_ne!(parent.to_vec(), swapped.to_vec());

    let mut buf = l.to_vec();
    buf.extend_from_slice(&r.to_vec());
    assert_eq!(parent.to_vec().as_slice(), blake3::hash(&buf).as_bytes());
}

#[test]
fn test_m31_reduction() {
    assert_eq!(M31::new(0).value, 0);
    assert_eq!(M31::new(0x7fff_ffff).value, 0);
    assert_eq!(M31::new(0x8000_0000).value, 1);
    assert_eq!(M31::new(u32::MAX).value, 1);
}

#[test]
fn test_le_byte_encodings() {
    assert_eq!(u32_to_le_bytes(0x0403_0201), vec![1, 2, 3, 4]);
    assert_eq!(
        u64_to_le_bytes(0x0807_0605_0403_0201),
        vec![1, 2, 3, 4, 5, 6, 7, 8]
    );
    let felt = QM31::from_m31(M31::new(1), M31::new(2), M31::new(3), M31::new(4));
    let bytes = felt.le_bytes();
    assert_eq!(bytes.len(), 16);
    assert_eq!(&bytes[0..4], &[1, 0, 0, 0]);
    assert_eq!(&bytes[12..16], &[4, 0, 0, 0]);
}

#[test]
fn test_blake3_hash_equality() {
    let a = hash_bytes(b"same");
    let b = hash_bytes(b"same");
    let c = hash_bytes(b"different");
    assert_eq!(a, b);
    assert_ne!(a, c);
    assert_eq!(Blake3Hash::default().to_vec(), vec![0u8; 32]);
}

#[test]
fn test_poseidon_node_input_layout() {
    let l = Poseidon31Hash::from_limbs(&[1, 2, 3, 4, 5, 6, 7, 8]);
    let r = Poseidon31Hash::from_limbs(&[9, 10, 11, 12, 13, 14, 15, 16]);
    let c: [u32; 8] = [21, 22, 23, 24, 25, 26, 27, 28];

    let both = hash_node_input(Some((l, r)), Some(&c));
    assert_eq!(both.len(), 24);
    assert_eq!(&both[0..8], &[1, 2, 3, 4, 5, 6, 7, 8]);
    assert_eq!(&both[8..16], &c);
    assert_eq!(&both[16..24], &[9, 10, 11, 12, 13, 14, 15, 16]);

    let interior = hash_node_input(Some((l, r)), None);
    assert_eq!(interior.len(), 16);
    assert_eq!(&interior[8..16], &[9, 10, 11, 12, 13, 14, 15, 16]);

    let leaf = hash_node_input(None, Some(&c));
    assert_eq!(leaf, c.to_vec());
}

#[test]
fn test_poseidon_root_to_felts() {
    let root = Poseidon31Hash::from_limbs(&[1, 2, 3, 4, 5, 6, 7, 8]);
    let (a, b) = root_to_felts(&root);
    assert_eq!(
        a,
        QM31::from_m31(M31::new(1), M31::new(2), M31::new(3), M31::new(4))
    );
    assert_eq!(
        b,
        QM31::from_m31(M31::new(5), M31::new(6), M31::new(7), M31::new(8))
    );
}

#[test]
fn test_poseidon31_hash_limbs() {
    let raw: [u32; 8] = [0, 1, 2, 0x7fff_ffff, 4, 5, 6, 0xffff_ffff];
    let h = Poseidon31Hash::from_limbs(&raw);
    // packing reduces each limb modulo 2^31 - 1
    assert_eq!(h.as_limbs(), [0, 1, 2, 0, 4, 5, 6, 1]);
    let bytes = h.to_le_bytes();
    assert_eq!(bytes.len(), 32);
    assert_eq!(&bytes[4..8], &[1, 0, 0, 0]);
}
