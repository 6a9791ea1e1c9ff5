use ivf_fraud::engine::{
    key_bits, Nearest,
    fraud_count, is_approved, needs_full_probe, order_key, top_n, top_n_dynamic, total_order_key,
    FAST_NPROBE, FULL_NPROBE, INFINITY_KEY, K,
};
use ivf_fraud::kmeans::{lcg_bits53, lcg_usize};
use ivf_fraud::simd::{choose_once, init, Kernels};

/// Order code of a distance.
fn key(d: f32) -> u32 {
    order_key(d.to_bits())
}

#[test]
fn top_n_selects_smallest() {
    let dists = vec![0.9f32, 0.1, 0.5, 0.3, 0.7, 0.2, 0.8, 0.4];
    let keys: Vec<u32> = dists.iter().map(|&d| key(d)).collect();
    let top3 = top_n(&keys, 3);
    let mut sorted = top3.clone();
    sorted.sort_unstable();
    // Indices of 0.1, 0.2, 0.3 are 1, 5, 3
    let expected_vals: Vec<f32> = sorted.iter().map(|&i| dists[i]).collect();
    assert!(expected_vals.iter().all(|&v| v <= 0.3 + 1e-6));
    assert_eq!(sorted, vec![1, 3, 5]);
}

#[test]
fn top_n_fills_with_zero_when_short() {
    let keys = vec![key(0.5), key(0.25)];
    let top = top_n(&keys, 4);
    assert_eq!(top.len(), 4);
    let mut first_two = vec![top[0], top[1]];
    first_two.sort_unstable();
    assert_eq!(first_two, vec![0, 1]);
    assert_eq!(&top[2..], &[0, 0]);
}

#[test]
fn top_n_skips_infinite_distances() {
    let keys = vec![INFINITY_KEY, key(0.5), u32::MAX, key(0.75)];
    let top = top_n(&keys, 2);
    let mut got = top.clone();
    got.sort_unstable();
    assert_eq!(got, vec![1, 3]);
}

#[test]
fn top_n_dynamic_takes_all_when_n_exceeds_len() {
    let keys = vec![key(0.5), key(0.25), key(0.75)];
    assert_eq!(top_n_dynamic(&keys, 10), vec![0, 1, 2]);
}

#[test]
fn top_n_dynamic_selects_smallest() {
    let keys: Vec<u32> = [0.9f32, 0.1, 0.5, 0.3, 0.7].iter().map(|&d| key(d)).collect();
    let mut got = top_n_dynamic(&keys, 2);
    got.sort_unstable();
    assert_eq!(got, vec![1, 3]);
}

#[test]
fn approval_threshold_is_three_of_five() {
    assert_eq!(K, 5);
    assert!(is_approved(0));
    assert!(is_approved(2));
    assert!(!is_approved(3));
    assert!(!is_approved(5));
    assert!(!is_approved(usize::MAX));
}

#[test]
fn fraud_count_counts_label_one() {
    assert_eq!(fraud_count(&[1, 0, 1, 1, 0]), 3);
    assert_eq!(fraud_count(&[0, 2, 0, 0, 0]), 0);
    assert_eq!(fraud_count(&[]), 0);
}

#[test]
fn borderline_votes_get_the_full_probe() {
    assert_eq!((FAST_NPROBE, FULL_NPROBE), (8, 24));
    assert!(!needs_full_probe(0));
    assert!(!needs_full_probe(1));
    assert!(needs_full_probe(2));
    assert!(needs_full_probe(3));
    assert!(!needs_full_probe(4));
    assert!(!needs_full_probe(5));
}

#[test]
fn lcg_matches_knuth_constants() {
    let mut state: u64 = 43;
    let expected_state = 43u64
        .wrapping_mul(6364136223846793005)
        .wrapping_add(1442695040888963407);
    let r = lcg_usize(&mut state, 10);
    assert_eq!(state, expected_state);
    assert_eq!(r, ((expected_state >> 33) as usize) % 10);
}

#[test]
fn kernels_follow_detection() {
    assert_eq!(init(true), Kernels::Avx2);
    assert_eq!(init(false), Kernels::Scalar);
}

#[test]
fn order_keys_follow_float_order() {
    assert_eq!(order_key(f32::INFINITY.to_bits()), INFINITY_KEY);
    assert_eq!(order_key(0.0f32.to_bits()), 0x8000_0000);
    assert_eq!(order_key((-1.0f32).to_bits()), !(-1.0f32).to_bits());
    let vals = [-3.5f32, -1.0, -0.25, 0.0, 0.1, 0.5, 2.0, 1e30, f32::INFINITY];
    for w in vals.windows(2) {
        assert!(order_key(w[0].to_bits()) < order_key(w[1].to_bits()));
    }
}

#[test]
fn no_slots_for_no_distances() {
    assert!(top_n(&[], 0).is_empty());
    assert_eq!(top_n(&[], 2), vec![0, 0]);
}

#[test]
fn signed_zeros_tie_and_nans_are_never_taken() {
    assert_eq!(order_key((-0.0f32).to_bits()), order_key(0.0f32.to_bits()));
    assert_eq!(order_key(f32::NAN.to_bits()), u32::MAX);
    assert_eq!(order_key((-f32::NAN).to_bits()), u32::MAX);
    // `<` keeps the first of two equal distances
    assert_eq!(top_n(&[key(0.0), key(-0.0)], 1), vec![0]);
    assert_eq!(top_n(&[key(f32::NAN), key(-f32::NAN), key(3.0)], 1), vec![2]);
    // the total order puts -0.0 below +0.0, as `f32::total_cmp` does
    assert!(total_order_key((-0.0f32).to_bits()) < total_order_key(0.0f32.to_bits()));
    assert_eq!(total_order_key(1.5f32.to_bits()), order_key(1.5f32.to_bits()));
    let keys: Vec<u32> = [0.0f32, -0.0].iter().map(|d| total_order_key(d.to_bits())).collect();
    assert_eq!(top_n_dynamic(&keys, 1), vec![1]);
}

#[test]
fn kernels_are_chosen_once() {
    let first = choose_once(None, true);
    assert_eq!(first, Kernels::Avx2);
    assert_eq!(choose_once(Some(first), false), Kernels::Avx2);
    assert_eq!(choose_once(None, false), Kernels::Scalar);
    assert_eq!(choose_once(Some(Kernels::Scalar), true), Kernels::Scalar);
}

#[test]
fn nearest_keeps_the_five_smallest() {
    let mut n = Nearest::new();
    assert_eq!(n.worst_key(), INFINITY_KEY);
    let dists = [0.9f32, 0.1, 0.5, 0.3, 0.7, 0.2, 0.8, 0.4, f32::NAN];
    for (i, d) in dists.iter().enumerate() {
        n.offer(key(*d), if i % 2 == 0 { 1 } else { 0 });
    }
    let mut kept: Vec<f32> = n.keys.iter().map(|&k| f32::from_bits(key_bits(k))).collect();
    kept.sort_by(|a, b| a.partial_cmp(b).unwrap());
    assert_eq!(kept, vec![0.1, 0.2, 0.3, 0.4, 0.5]);
    // labels of 0.1, 0.2, 0.3 (odd positions) are 0; of 0.5, 0.4 are 1 and 0
    assert_eq!(fraud_count(&n.labels), 1);
    assert_eq!(f32::from_bits(key_bits(n.worst_key())), 0.5);
    // an equal distance does not replace the worst
    let before = n.keys.clone();
    n.offer(key(0.5), 1);
    assert_eq!(n.keys, before);
}

#[test]
fn key_bits_reads_codes_back() {
    for v in [0.0f32, 1.5, 1e-30, f32::INFINITY, -2.0] {
        assert_eq!(key_bits(total_order_key(v.to_bits())), v.to_bits());
    }
    assert_eq!(key_bits(order_key((-0.0f32).to_bits())), 0.0f32.to_bits());
}

#[test]
fn top_n_slots_follow_the_single_pass() {
    // 3 fills slot 0, 1 fills slot 1, then 2 replaces 3 in slot 0
    assert_eq!(top_n(&[3, 1, 2], 2), vec![2, 1]);
    // an equal code does not replace the worst slot: the earlier index stays
    assert_eq!(top_n(&[7, 7, 7], 1), vec![0]);
    assert_eq!(top_n(&[7, 5, 7, 5], 2), vec![3, 1]);
}

#[test]
fn lcg_draws_the_top_53_bits() {
    let mut a = 42u64;
    let mut b = 42u64;
    let bits = lcg_bits53(&mut a);
    let next = 42u64.wrapping_mul(6364136223846793005).wrapping_add(1442695040888963407);
    assert_eq!(a, next);
    assert_eq!(bits, next >> 11);
    let _ = lcg_usize(&mut b, 10);
    assert_eq!(b, next);
}
