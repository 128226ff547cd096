use threshold_secret_sharing::field::mod_pow;
use threshold_secret_sharing::packed::{pss_155_19682_100, pss_155_728_100, pss_4_26_3, pss_4_8_3, PackedSecretSharing};
use threshold_secret_sharing::poly::mod_evaluate_polynomial;
use threshold_secret_sharing::transform::transform3_inverse;

#[test]
fn test_recover_polynomial() {
    let pss = pss_4_8_3();
    let secrets = vec![1, 2, 3];
    let randomness = vec![8, 8, 8, 8]; // use fixed randomness
    let poly = pss.recover_polynomial(&secrets, randomness);
    let p = pss.prime;
    assert_eq!(poly, vec![113, p - 382, p - 172, 267, p - 325, 432, 388, p - 321]);
}

#[test]
fn test_evaluate_polynomial() {
    let pss = pss_4_26_3();
    let poly = vec![113, 51, 261, 267, 108, 432, 388, 112, 0, 0, 0,
                    0, 0, 0, 0, 0, 0, 0, 0, 0, 0, 0, 0, 0, 0, 0, 0];
    let points = pss.evaluate_polynomial(poly);
    assert_eq!(points, vec![0, 77, 230, 91, 286, 179, 337, 83, 212, 88,
                            406, 58, 425, 345, 350, 336, 430, 404, 51, 60, 305,
                            395, 84, 156, 160, 112, 422]);
}

#[test]
fn test_share() {
    let pss = pss_4_26_3();

    // do sharing
    let secrets = vec![5, 6, 7];
    let mut shares = pss.share(&secrets);

    // manually recover secrets
    shares.insert(0, 0);
    let poly = transform3_inverse(&shares, pss.omega_shares, pss.prime);
    let recovered_secrets: Vec<i64> = (1..secrets.len() + 1)
        .map(|i| mod_evaluate_polynomial(&poly, mod_pow(pss.omega_secrets, i as u64, pss.prime), pss.prime))
        .collect();
    assert_eq!(recovered_secrets, secrets);
}

#[test]
fn test_large_share() {
    let pss = pss_155_19682_100();
    let secrets = vec![5; pss.secret_count];
    let shares = pss.share(&secrets);
    assert_eq!(shares.len(), pss.share_count);
}

#[test]
fn test_share_reconstruct() {
    let pss = pss_4_26_3();
    let secrets = vec![5, 6, 7];
    let shares = pss.share(&secrets);

    // reconstruction must work for all shares
    let indices: Vec<usize> = (0..shares.len()).collect();
    let recovered_secrets = pss.reconstruct(&indices, &shares).unwrap();
    assert_eq!(recovered_secrets, secrets);

    // .. and for only sufficient shares
    let indices: Vec<usize> = (0..pss.reconstruct_limit()).collect();
    let recovered_secrets = pss.reconstruct(&indices, &shares[0..pss.reconstruct_limit()]).unwrap();
    assert_eq!(recovered_secrets, secrets);
}

#[test]
fn test_share_additive_homomorphism() {
    let pss = pss_4_26_3();

    let secrets_1 = vec![1, 2, 3];
    let secrets_2 = vec![4, 5, 6];
    let shares_1 = pss.share(&secrets_1);
    let shares_2 = pss.share(&secrets_2);

    // add shares pointwise
    let shares_sum: Vec<i64> =
        shares_1.iter().zip(shares_2).map(|(a, b)| (a + b) % pss.prime).collect();

    // reconstruct sum, using same reconstruction limit
    let reconstruct_limit = pss.reconstruct_limit();
    let indices: Vec<usize> = (0..reconstruct_limit).collect();
    let shares = &shares_sum[0..reconstruct_limit];
    let recovered_secrets = pss.reconstruct(&indices, shares).unwrap();
    assert_eq!(recovered_secrets, vec![5, 7, 9]);
}

#[test]
fn test_share_multiplicative_homomorphism() {
    let pss = pss_4_26_3();

    let secrets_1 = vec![1, 2, 3];
    let secrets_2 = vec![4, 5, 6];
    let shares_1 = pss.share(&secrets_1);
    let shares_2 = pss.share(&secrets_2);

    // multiply shares pointwise
    let shares_product: Vec<i64> =
        shares_1.iter().zip(shares_2).map(|(a, b)| (a * b) % pss.prime).collect();

    // reconstruct product, using double reconstruction limit (minus one)
    let reconstruct_limit = pss.reconstruct_limit() * 2 - 1;
    let indices: Vec<usize> = (0..reconstruct_limit).collect();
    let shares = &shares_product[0..reconstruct_limit];
    let recovered_secrets = pss.reconstruct(&indices, shares).unwrap();
    assert_eq!(recovered_secrets, vec![4, 10, 18]);
}

#[test]
fn test_new() {
    assert_eq!(PackedSecretSharing::new(155, 100, 728), Some(pss_155_728_100()));
    assert_eq!(PackedSecretSharing::new_with_min_size(4, 3, 8, 200), Some(pss_4_8_3()));
    assert_eq!(PackedSecretSharing::new_with_min_size(4, 3, 26, 200), Some(pss_4_26_3()));
}
