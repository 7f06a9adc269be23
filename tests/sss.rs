use secret_sharing::sss::{SecretSharer, Share};
use secret_sharing::uint::Uint;

fn n(v: u64) -> Uint {
    Uint::from_u64(v)
}

#[test]
fn sss_any_three_of_five_reconstruct() {
    let secret = n(22773311);
    let sharer = SecretSharer::new(3, 5);
    let shares = sharer.split_secret(&secret);
    assert_eq!(shares.len(), 5);
    for a in 0..5 {
        for b in (a + 1)..5 {
            for c in (b + 1)..5 {
                let subset = vec![shares[a].clone(), shares[b].clone(), shares[c].clone()];
                assert_eq!(sharer.reconstruct_secret(&subset), Some(secret.clone()));
            }
        }
    }
    assert_eq!(sharer.reconstruct_secret(&shares[0..3]), Some(secret));
}

#[test]
fn sss_too_few_shares_give_none() {
    let sharer = SecretSharer::new(3, 5);
    let shares = sharer.split_secret(&n(99));
    assert_eq!(sharer.reconstruct_secret(&shares[0..2]), None);
    assert_eq!(sharer.reconstruct_secret(&[]), None);
}

#[test]
fn sss_shares_have_distinct_points_one_to_n() {
    let sharer = SecretSharer::new(2, 4);
    let shares = sharer.split_secret(&n(5));
    assert_eq!(shares.len(), 4);
    for (i, share) in shares.iter().enumerate() {
        assert_eq!(share.x, n(i as u64 + 1));
    }
}

#[test]
fn sss_shares_from_polynomial_exact_values() {
    let sharer = SecretSharer::new(3, 3);
    let shares = sharer.shares_from_polynomial(&vec![n(22773311), n(5), n(9)]);
    let expected = [22773325u64, 22773357, 22773407];
    for (i, share) in shares.iter().enumerate() {
        assert_eq!(share.x, n(i as u64 + 1));
        assert_eq!(share.y, n(expected[i]));
    }
    assert_eq!(sharer.reconstruct_secret(&shares), Some(n(22773311)));
}

#[test]
fn sss_secret_is_reduced_modulo_prime() {
    let sharer = SecretSharer::new(2, 3);
    // 2^521 + 40, which is 41 above the prime 2^521 - 1
    let mut digits = vec![0u32; 17];
    digits[0] = 40;
    digits[16] = 512;
    let secret = Uint::from_u32_digits(digits);
    let shares = sharer.split_secret(&secret);
    assert_eq!(sharer.reconstruct_secret(&shares[1..]), Some(n(41)));
}

#[test]
fn sss_threshold_above_total_never_reconstructs() {
    let sharer = SecretSharer::new(4, 3);
    let shares = sharer.split_secret(&n(8));
    assert_eq!(shares.len(), 3);
    assert_eq!(sharer.reconstruct_secret(&shares), None);
}

#[test]
fn sss_duplicate_points_give_none() {
    let sharer = SecretSharer::new(2, 3);
    let shares = sharer.split_secret(&n(8));
    let dup = vec![shares[1].clone(), Share { x: shares[1].x.clone(), y: n(3) }];
    assert_eq!(sharer.reconstruct_secret(&dup), None);
}

#[test]
fn sss_zero_point_gives_no_secret() {
    let sharer = SecretSharer::new(3, 5);
    let shares = sharer.split_secret(&n(22773311));
    let with_zero = vec![
        Share { x: n(0), y: n(22773311) },
        shares[0].clone(),
        shares[1].clone(),
    ];
    assert_eq!(sharer.reconstruct_secret(&with_zero), None);
    let later_zero = vec![shares[0].clone(), shares[1].clone(), Share { x: n(0), y: n(22773311) }];
    assert_eq!(sharer.reconstruct_secret(&later_zero), None);
}
