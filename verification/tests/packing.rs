use ivf_fraud::packing::{label_code, pack_clusters, transpose_centroids};

fn vector(seed: i16) -> [i16; 14] {
    let mut v = [0i16; 14];
    for d in 0..14 {
        v[d] = seed * 100 + d as i16;
    }
    v
}

#[test]
fn clusters_take_their_blocks_in_order() {
    let assign = vec![1usize, 0, 1];
    let labels = vec![1u8, 0, 1];
    let vectors = vec![vector(1), vector(2), vector(3)];
    let packed = pack_clusters(2, &assign, &labels, &vectors);
    assert_eq!(packed.offsets, vec![0, 1, 2]);
    assert_eq!(packed.labels.len(), 16);
    assert_eq!(packed.blocks.len(), 224);
    for d in 0..14 {
        assert_eq!(packed.blocks[d * 8], vector(2)[d]); // cluster 0, slot 0
        assert_eq!(packed.blocks[112 + d * 8], vector(1)[d]); // cluster 1, slot 0
        assert_eq!(packed.blocks[112 + d * 8 + 1], vector(3)[d]); // cluster 1, slot 1
        for s in 2..8 {
            assert_eq!(packed.blocks[112 + d * 8 + s], i16::MAX);
        }
        for s in 1..8 {
            assert_eq!(packed.blocks[d * 8 + s], i16::MAX);
        }
    }
    assert_eq!(packed.labels, vec![0, 0, 0, 0, 0, 0, 0, 0, 1, 1, 0, 0, 0, 0, 0, 0]);
}

#[test]
fn a_ninth_vector_opens_a_second_block() {
    let assign = vec![0usize; 9];
    let labels = vec![1u8; 9];
    let vectors: Vec<[i16; 14]> = (0..9).map(|i| vector(i as i16)).collect();
    let packed = pack_clusters(2, &assign, &labels, &vectors);
    assert_eq!(packed.offsets, vec![0, 2, 2]);
    assert_eq!(packed.blocks.len(), 224);
    assert_eq!(packed.blocks[112 + 3 * 8], vector(8)[3]); // slot 8: block 1, column 0
    assert_eq!(packed.blocks[112 + 3 * 8 + 1], i16::MAX);
    assert_eq!(packed.labels[8], 1);
    assert_eq!(packed.labels[9], 0);
}

#[test]
fn empty_clusters_own_no_blocks() {
    let packed = pack_clusters(3, &[], &[], &[]);
    assert_eq!(packed.offsets, vec![0, 0, 0, 0]);
    assert!(packed.labels.is_empty());
    assert!(packed.blocks.is_empty());
}

#[test]
fn centroids_become_dimension_major() {
    let k = 3usize;
    let flat: Vec<u32> = (0..16 * k as u32).collect();
    let t = transpose_centroids(&flat, k);
    assert_eq!(t.len(), 14 * k);
    assert_eq!(&t[0..3], &[0, 16, 32]);
    assert_eq!(&t[3..6], &[1, 17, 33]);
    assert_eq!(t[13 * 3 + 2], 2 * 16 + 13);
}

#[test]
fn only_fraud_is_class_one() {
    assert_eq!(label_code(b"fraud"), 1);
    assert_eq!(label_code(b"legit"), 0);
    assert_eq!(label_code(b"Fraud"), 0);
    assert_eq!(label_code(b"fraud "), 0);
    assert_eq!(label_code(b""), 0);
}
