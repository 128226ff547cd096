use threshold_secret_sharing::packed::{pss_155_19682_100, pss_155_728_100, pss_4_26_3, pss_4_8_3, PackedSecretSharing};

fn add_mod(a: &[i64], b: &[i64], p: i64) -> Vec<i64> {
    a.iter().zip(b.iter()).map(|(x, y)| (x + y) % p).collect()
}

#[test]
fn presets_are_valid() {
    assert!(pss_4_8_3().is_valid());
    assert!(pss_4_26_3().is_valid());
    assert!(pss_155_728_100().is_valid());
    assert!(pss_155_19682_100().is_valid());
    let mut bad = pss_4_26_3();
    bad.omega_shares = 150;
    assert!(!bad.is_valid());
    let mut bad = pss_4_26_3();
    bad.prime = 435;
    assert!(!bad.is_valid());
    let mut bad = pss_4_26_3();
    bad.share_count = 25;
    assert!(!bad.is_valid());
}

#[test]
fn reconstruct_limit_value() {
    assert_eq!(pss_4_26_3().reconstruct_limit(), 8);
    assert_eq!(pss_155_728_100().reconstruct_limit(), 256);
}

#[test]
fn round_trip_with_fixed_randomness() {
    let pss = pss_4_26_3();
    let secrets = vec![11, 0, 432];
    let shares = pss.share_with_randomness(&secrets, vec![1, 2, 3, 4]);
    assert_eq!(shares.len(), 26);
    let indices: Vec<usize> = (0..26).collect();
    assert_eq!(pss.reconstruct(&indices, &shares).unwrap(), secrets);
}

#[test]
fn any_subset_of_limit_size_reconstructs() {
    let pss = pss_4_26_3();
    let secrets = vec![5, 6, 7];
    let shares = pss.share(&secrets);
    let indices: Vec<usize> = vec![25, 3, 17, 8, 0, 11, 21, 14];
    let subset: Vec<i64> = indices.iter().map(|&i| shares[i]).collect();
    assert_eq!(pss.reconstruct(&indices, &subset).unwrap(), secrets);
    let indices: Vec<usize> = (18..26).collect();
    assert_eq!(pss.reconstruct(&indices, &shares[18..26]).unwrap(), secrets);
}

#[test]
fn too_few_shares_are_rejected() {
    let pss = pss_4_26_3();
    let shares = pss.share(&[5, 6, 7]);
    let indices: Vec<usize> = (0..7).collect();
    assert_eq!(pss.reconstruct(&indices, &shares[0..7]), None);
    assert_eq!(pss.reconstruct(&[], &[]), None);
}

#[test]
fn malformed_reconstruction_inputs_are_rejected() {
    let pss = pss_4_26_3();
    let shares = pss.share(&[5, 6, 7]);
    // lengths differ
    let indices: Vec<usize> = (0..9).collect();
    assert_eq!(pss.reconstruct(&indices, &shares[0..8]), None);
    // rank out of range
    let indices: Vec<usize> = vec![0, 1, 2, 3, 4, 5, 6, 26];
    assert_eq!(pss.reconstruct(&indices, &shares[0..8]), None);
    // repeated rank
    let indices: Vec<usize> = vec![0, 1, 2, 3, 4, 5, 6, 6];
    let values: Vec<i64> = indices.iter().map(|&i| shares[i]).collect();
    assert_eq!(pss.reconstruct(&indices, &values), None);
}

#[test]
fn sharing_draws_fresh_randomness() {
    let pss = pss_4_26_3();
    let a = pss.share(&[5, 6, 7]);
    let b = pss.share(&[5, 6, 7]);
    assert_ne!(a, b);
    assert!(a.iter().all(|&x| 0 <= x && x < pss.prime));
}

#[test]
fn sharing_is_additive() {
    let pss = pss_4_26_3();
    let p = pss.prime;
    let (sa, ra) = (vec![1, 2, 430], vec![9, 100, 3, 432]);
    let (sb, rb) = (vec![4, 5, 6], vec![7, 400, 0, 1]);
    let shares_a = pss.share_with_randomness(&sa, ra.clone());
    let shares_b = pss.share_with_randomness(&sb, rb.clone());
    let shares_sum = pss.share_with_randomness(&add_mod(&sa, &sb, p), add_mod(&ra, &rb, p));
    assert_eq!(shares_sum, add_mod(&shares_a, &shares_b, p));
    let indices: Vec<usize> = (0..8).collect();
    assert_eq!(pss.reconstruct(&indices, &shares_sum[0..8]).unwrap(), vec![5, 7, 3]);
}

#[test]
fn constructor_rejects_bad_sizes() {
    assert_eq!(PackedSecretSharing::new_with_min_size(4, 3, 9, 200), None);
    assert_eq!(PackedSecretSharing::new_with_min_size(4, 4, 26, 200), None);
    assert_eq!(PackedSecretSharing::new_with_min_size(4, 3, 26, 10), None);
    assert_eq!(PackedSecretSharing::new(0, 0, 8), None);
    assert_eq!(PackedSecretSharing::new(4, 3, 2), None);
}

#[test]
fn polynomial_from_any_split_of_values() {
    let pss = pss_4_8_3();
    let a = pss.recover_polynomial(&[1, 2, 3], vec![8, 8, 8, 8]);
    let b = pss.recover_polynomial(&[1, 2, 3, 8], vec![8, 8, 8]);
    assert_eq!(a, b);
}
