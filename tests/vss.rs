use secret_sharing::uint::Uint;
use secret_sharing::vss::{Commitment, FeldmanVSS, Share};

fn n(v: u64) -> Uint {
    Uint::from_u64(v)
}

fn toy() -> FeldmanVSS {
    FeldmanVSS::new(n(23), n(11), n(2), 3, 5)
}

#[test]
fn test_vss_workflow() {
    let p = n(23);
    let q = n(11);
    let g = n(2);
    let threshold = 3;
    let total_shares = 5;

    let mut vss = FeldmanVSS::new(p, q, g, threshold, total_shares);
    let secret = n(7);

    let (shares, commitments) = vss.split_secret(&secret).unwrap();

    assert!(shares
        .iter()
        .all(|share| vss.verify_share(share, &commitments)));

    let reconstructed = vss.reconstruct_secret(&shares[0..threshold]);
    assert_eq!(reconstructed, Some(secret));

    let insufficient = vss.reconstruct_secret(&shares[0..threshold - 1]);
    assert_eq!(insufficient, None);
}

#[test]
fn vss_secret_at_or_above_q_is_rejected() {
    let mut vss = toy();
    assert_eq!(vss.split_secret(&n(11)).unwrap_err(), "Secret must be less than q");
    assert!(vss.split_secret(&n(12)).is_err());
    assert!(vss.split_secret(&n(10)).is_ok());
}

#[test]
fn vss_deal_from_polynomial_exact_values() {
    let vss = toy();
    let (shares, commitments) = vss.deal_from_polynomial(&vec![n(7), n(3), n(5)]);
    let expected = [4u64, 0, 6, 0, 4];
    assert_eq!(shares.len(), 5);
    for (i, share) in shares.iter().enumerate() {
        assert_eq!(share.id, n(i as u64 + 1));
        assert_eq!(share.value, n(expected[i]));
    }
    assert_eq!(commitments.0, vec![n(13), n(8), n(9)]);
    for share in &shares {
        assert!(vss.verify_share(share, &commitments));
    }
}

#[test]
fn vss_mutated_share_fails_verification() {
    let vss = toy();
    let (shares, commitments) = vss.deal_from_polynomial(&vec![n(7), n(3), n(5)]);
    let tampered = Share { id: shares[0].id.clone(), value: n(5) };
    assert!(!vss.verify_share(&tampered, &commitments));
    let moved = Share { id: n(3), value: shares[0].value.clone() };
    assert!(!vss.verify_share(&moved, &commitments));
    let other = Commitment(vec![n(13), n(8), n(8)]);
    assert!(!vss.verify_share(&shares[0], &other));
}

#[test]
fn vss_any_three_shares_reconstruct() {
    let mut vss = toy();
    let (shares, _) = vss.split_secret(&n(7)).unwrap();
    for a in 0..5 {
        for b in 0..5 {
            for c in 0..5 {
                if a != b && b != c && a != c {
                    let subset = vec![shares[a].clone(), shares[b].clone(), shares[c].clone()];
                    assert_eq!(vss.reconstruct_secret(&subset), Some(n(7)));
                }
            }
        }
    }
    assert_eq!(vss.reconstruct_secret(&shares), Some(n(7)));
}

#[test]
fn vss_shares_have_distinct_ids_one_to_n() {
    let mut vss = toy();
    let (shares, commitments) = vss.split_secret(&n(3)).unwrap();
    assert_eq!(shares.len(), 5);
    assert_eq!(commitments.0.len(), 3);
    for (i, share) in shares.iter().enumerate() {
        assert_eq!(share.id, n(i as u64 + 1));
    }
}

#[test]
fn vss_duplicate_ids_give_no_secret() {
    let vss = toy();
    let (shares, _) = vss.deal_from_polynomial(&vec![n(7), n(3), n(5)]);
    let dup = vec![shares[0].clone(), shares[0].clone(), shares[1].clone()];
    assert_eq!(vss.reconstruct_secret(&dup), None);
}

#[test]
fn vss_only_first_threshold_shares_are_used() {
    let vss = toy();
    let (shares, _) = vss.deal_from_polynomial(&vec![n(7), n(3), n(5)]);
    let bogus = Share { id: n(4), value: n(9) };
    let tail_bad = vec![shares[0].clone(), shares[1].clone(), shares[2].clone(), bogus.clone()];
    assert_eq!(vss.reconstruct_secret(&tail_bad), Some(n(7)));
    let head_bad = vec![bogus, shares[0].clone(), shares[1].clone(), shares[2].clone()];
    assert_ne!(vss.reconstruct_secret(&head_bad), Some(n(7)));
    let dup_first = vec![shares[0].clone(), shares[0].clone(), shares[1].clone(), shares[2].clone()];
    assert_eq!(vss.reconstruct_secret(&dup_first), None);
    let reordered = vec![shares[1].clone(), shares[2].clone(), shares[0].clone(), shares[0].clone()];
    assert_eq!(vss.reconstruct_secret(&reordered), Some(n(7)));
}

#[test]
fn vss_threshold_one_shares_are_the_secret() {
    let mut vss = FeldmanVSS::new(n(23), n(11), n(2), 1, 3);
    let (shares, commitments) = vss.split_secret(&n(4)).unwrap();
    for share in &shares {
        assert_eq!(share.value, n(4));
        assert!(vss.verify_share(share, &commitments));
    }
    assert_eq!(vss.reconstruct_secret(&shares[2..]), Some(n(4)));
    assert_eq!(vss.reconstruct_secret(&[]), None);
}

#[test]
fn vss_zero_id_gives_no_secret() {
    let vss = toy();
    let shares = vec![
        Share { id: n(0), value: n(7) },
        Share { id: n(1), value: n(4) },
        Share { id: n(2), value: n(0) },
    ];
    assert_eq!(vss.reconstruct_secret(&shares), None);
    let wrapped = vec![
        Share { id: n(11), value: n(7) },
        Share { id: n(1), value: n(4) },
        Share { id: n(2), value: n(0) },
    ];
    assert_eq!(vss.reconstruct_secret(&wrapped), None);
}
