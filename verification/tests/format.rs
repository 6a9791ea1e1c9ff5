use ivf_fraud::format::{
    from_bytes_is_defined, read_u32_vec, FormatError, IvfIndex, BLOCK_ELEMS, BLOCK_SIZE, N_DIMS,
    QUANT_SCALE_BITS,
};

fn make_small_index() -> IvfIndex {
    // 4 clusters, 2 real vectors each → 1 block per cluster (slots 0-1 real, 2-7 padding)
    let k = 4usize;
    let n_vectors = 8u32;
    let n_blocks = 4usize; // 1 block per cluster

    let centroids = vec![0.5f32.to_bits(); N_DIMS * k];

    // offsets: [0, 1, 2, 3, 4]
    let offsets: Vec<u32> = (0..=k as u32).collect();

    let mut labels = vec![0u8; n_blocks * BLOCK_SIZE];
    labels[0] = 0;
    labels[1] = 1; // cluster 0
    labels[8] = 0;
    labels[9] = 1; // cluster 1
    labels[16] = 1;
    labels[17] = 0; // cluster 2
    labels[24] = 0;
    labels[25] = 1; // cluster 3

    let blocks = vec![1000i16; n_blocks * BLOCK_ELEMS];

    IvfIndex::from_parts(
        n_vectors,
        N_DIMS as u16,
        k as u32,
        QUANT_SCALE_BITS,
        2,
        &centroids,
        offsets,
        labels,
        &blocks,
    )
}

#[test]
fn round_trip_write_load() {
    let written = make_small_index();
    let bytes = written.to_bytes();
    assert!(from_bytes_is_defined(&bytes));
    let loaded = IvfIndex::from_bytes(&bytes).unwrap();

    assert_eq!(loaded.n_vectors, written.n_vectors);
    assert_eq!(loaded.n_clusters, written.n_clusters);
    assert_eq!(loaded.nprobe, written.nprobe);
    assert_eq!(f32::from_bits(loaded.quant_scale_bits), f32::from_bits(written.quant_scale_bits));
    assert_eq!(loaded.centroid_bits(), written.centroid_bits());
    assert_eq!(loaded.offsets, written.offsets);
    assert_eq!(loaded.labels, written.labels);
    assert_eq!(loaded.block_values(), written.block_values());
}

#[test]
fn cluster_blocks_returns_correct_range() {
    let idx = make_small_index();
    let (start, n) = idx.cluster_blocks(1);
    assert_eq!(start, 1);
    assert_eq!(n, 1);
}

#[test]
fn centroid_dim_returns_correct_slice() {
    let idx = make_small_index();
    let k = idx.n_clusters as usize;
    let dim0 = idx.centroid_dim(0);
    assert_eq!(dim0.len(), k);
    assert!((f32::from_bits(dim0[0]) - 0.5).abs() < 1e-6);
}

#[test]
fn bad_magic_rejected() {
    let mut data = vec![0u8; 200];
    data[0..8].copy_from_slice(b"GARBAGE!");
    assert!(IvfIndex::from_bytes(&data).is_err());
    assert_eq!(IvfIndex::from_bytes(&data).err(), Some(FormatError::BadMagic));
}

#[test]
fn header_layout_is_little_endian() {
    let bytes = make_small_index().to_bytes();
    assert_eq!(&bytes[0..8], b"IVFVEC02");
    assert_eq!(bytes[8], 2);
    assert_eq!(&bytes[9..13], &[8, 0, 0, 0]);
    assert_eq!(&bytes[13..15], &[14, 0]);
    assert_eq!(&bytes[15..19], &[4, 0, 0, 0]);
    assert_eq!(&bytes[19..21], &[2, 0]);
    assert_eq!(&bytes[21..25], &10000.0f32.to_bits().to_le_bytes());
    assert_eq!(&bytes[25..29], &[4, 0, 0, 0]);
    assert_eq!(bytes.len(), 29 + 4 * 56 + 4 * 5 + 32 + 2 * 448);
    assert_eq!(&bytes[bytes.len() - 2..], &1000i16.to_le_bytes());
}

#[test]
fn every_error_has_its_input() {
    assert_eq!(IvfIndex::from_bytes(&[0u8; 28]).err(), Some(FormatError::FileTooShort));
    let good = make_small_index().to_bytes();
    let mut v3 = good.clone();
    v3[8] = 3;
    assert_eq!(IvfIndex::from_bytes(&v3).err(), Some(FormatError::UnsupportedVersion(3)));
    assert_eq!(IvfIndex::from_bytes(&good[..100]).err(), Some(FormatError::TruncatedF32Section));
    assert_eq!(IvfIndex::from_bytes(&good[..29 + 224 + 10]).err(), Some(FormatError::TruncatedU32Section));
    assert_eq!(IvfIndex::from_bytes(&good[..good.len() - 1]).err(), Some(FormatError::TruncatedI16Section));
    // labels run past the end: the reader is not defined there
    assert!(!from_bytes_is_defined(&good[..29 + 224 + 20 + 5]));
}

#[test]
fn parts_are_kept_as_given() {
    let idx = IvfIndex::from_parts(3, 14, 1, QUANT_SCALE_BITS, 1, &[7, 8], vec![0, 1], vec![1; 8], &[-5, 6, 7]);
    assert_eq!(idx.centroid_bits(), &[7, 8]);
    assert_eq!(idx.block_values(), &[-5, 6, 7]);
    assert_eq!(idx.labels, vec![1; 8]);
    assert_eq!(idx.n_vectors, 3);
}

#[test]
fn u32_sections_read_little_endian() {
    let data = [1u8, 0, 0, 0, 0, 1, 0, 0, 9];
    let mut pos = 0usize;
    assert_eq!(read_u32_vec(&data, &mut pos, 2), Ok(vec![1, 256]));
    assert_eq!(pos, 8);
    assert_eq!(read_u32_vec(&data, &mut pos, 1), Err(FormatError::TruncatedU32Section));
    assert_eq!(pos, 8);
    let mut past = 20usize;
    assert_eq!(read_u32_vec(&data, &mut past, 0), Err(FormatError::TruncatedU32Section));
    assert_eq!(past, 20);
}
