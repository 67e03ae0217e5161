use rand::rngs::OsRng;
use shamir_share::field::FieldElement;
use shamir_share::polynomial::Polynomial;
use shamir_share::shamir::{new_scheme, ShamirSecretShare, Share, ShareError};

fn fe(v: u64) -> FieldElement {
    FieldElement::from_u64(v)
}

/// The modulus minus one, the field's representation of -1.
fn minus_one() -> FieldElement {
    FieldElement {
        l0: 0x43e1f593f0000000,
        l1: 0x2833e84879b97091,
        l2: 0xb85045b68181585d,
        l3: 0x30644e72e131a029,
    }
}

fn shares_for(secret: u64, t: usize, n: usize) -> Vec<Share> {
    let scheme = new_scheme(t, n).unwrap();
    scheme.generate_shares(fe(secret), &mut OsRng).unwrap()
}

#[test]
fn concrete_scenario_1234() {
    let shares = shares_for(1234, 3, 5);
    assert_eq!(shares.len(), 5);
    for (i, s) in shares.iter().enumerate() {
        assert_eq!(s.x, fe(i as u64 + 1));
    }
    let first = vec![shares[0], shares[1], shares[2]];
    assert_eq!(ShamirSecretShare::reconstruct_secret(&first, 3), Ok(fe(1234)));
    let other = vec![shares[1], shares[3], shares[4]];
    assert_eq!(ShamirSecretShare::reconstruct_secret(&other, 3), Ok(fe(1234)));
    let two = vec![shares[0], shares[1]];
    assert_eq!(
        ShamirSecretShare::reconstruct_secret(&two, 3),
        Err(ShareError::InsufficientShares)
    );
}

#[test]
fn invalid_parameters_scenario() {
    assert_eq!(new_scheme(0, 5), Err(ShareError::InvalidParameters));
    assert_eq!(new_scheme(5, 3), Err(ShareError::InvalidParameters));
    assert_eq!(ShamirSecretShare::new(0, 0), Err(ShareError::InvalidParameters));
    let p = new_scheme(3, 3).unwrap();
    assert_eq!((p.threshold, p.total_shares), (3, 3));
}

#[test]
fn generate_shares_rejects_bad_parameters() {
    let zero = ShamirSecretShare { threshold: 0, total_shares: 4 };
    assert_eq!(zero.generate_shares(fe(9), &mut OsRng), Err(ShareError::InvalidParameters));
    let short = ShamirSecretShare { threshold: 5, total_shares: 4 };
    assert_eq!(short.generate_shares(fe(9), &mut OsRng), Err(ShareError::InvalidParameters));
}

#[test]
fn round_trip_first_threshold_shares() {
    for &(t, n) in &[(1usize, 1usize), (1, 4), (2, 2), (2, 5), (3, 7), (5, 5), (6, 9)] {
        for &secret in &[0u64, 1, 42, u64::MAX] {
            let shares = shares_for(secret, t, n);
            let r = ShamirSecretShare::reconstruct_secret(&shares[..t], t);
            assert_eq!(r, Ok(fe(secret)));
        }
    }
}

#[test]
fn round_trip_largest_secret() {
    let shares = ShamirSecretShare::new(4, 6).unwrap().generate_shares(minus_one(), &mut OsRng).unwrap();
    assert_eq!(ShamirSecretShare::reconstruct_secret(&shares[2..6], 4), Ok(minus_one()));
}

#[test]
fn subsets_agree() {
    let shares = shares_for(777, 3, 6);
    let subsets = [[0usize, 1, 2], [3, 4, 5], [0, 2, 4], [5, 1, 3], [2, 0, 5]];
    for sub in subsets.iter() {
        let picked: Vec<Share> = sub.iter().map(|&i| shares[i]).collect();
        assert_eq!(ShamirSecretShare::reconstruct_secret(&picked, 3), Ok(fe(777)));
    }
}

#[test]
fn threshold_one_shares_are_the_secret() {
    let shares = shares_for(31337, 1, 5);
    for s in shares.iter() {
        assert_eq!(s.y, fe(31337));
    }
}

#[test]
fn duplicate_x_is_degenerate() {
    let shares = shares_for(5, 3, 5);
    let dup = vec![shares[0], shares[1], shares[0]];
    assert_eq!(
        ShamirSecretShare::reconstruct_secret(&dup, 3),
        Err(ShareError::DegenerateShareSet)
    );
    let dup_x = vec![shares[2], Share { x: shares[2].x, y: fe(1) }];
    assert_eq!(
        ShamirSecretShare::reconstruct_secret(&dup_x, 2),
        Err(ShareError::DegenerateShareSet)
    );
}

#[test]
fn duplicate_beyond_threshold_is_ignored() {
    let shares = shares_for(88, 2, 4);
    let list = vec![shares[0], shares[3], shares[3], shares[0]];
    assert_eq!(ShamirSecretShare::reconstruct_secret(&list, 2), Ok(fe(88)));
}

#[test]
fn too_few_shares() {
    let shares = shares_for(5, 4, 6);
    assert_eq!(
        ShamirSecretShare::reconstruct_secret(&shares[..3], 4),
        Err(ShareError::InsufficientShares)
    );
    assert_eq!(
        ShamirSecretShare::reconstruct_secret(&[], 1),
        Err(ShareError::InsufficientShares)
    );
}

#[test]
fn zero_threshold_reconstruction() {
    let shares = shares_for(5, 2, 3);
    assert_eq!(
        ShamirSecretShare::reconstruct_secret(&shares, 0),
        Err(ShareError::InvalidParameters)
    );
}

#[test]
fn polynomial_generation() {
    assert_eq!(
        ShamirSecretShare::generate_polynomial(fe(3), 0, &mut OsRng).unwrap_err(),
        ShareError::InvalidParameters
    );
    let p = ShamirSecretShare::generate_polynomial(fe(3), 1, &mut OsRng).unwrap();
    assert_eq!(p.coeffs, vec![fe(3)]);
    let p = ShamirSecretShare::generate_polynomial(fe(3), 4, &mut OsRng).unwrap();
    assert_eq!(p.len(), 4);
    assert_eq!(p.coeffs[0], fe(3));
}

#[test]
fn shares_of_fixed_polynomial() {
    // f(x) = 7 + 2x + 3x^2
    let p = Polynomial::with_constant_term(fe(7), vec![fe(2), fe(3)]);
    assert_eq!(p.coeffs, vec![fe(7), fe(2), fe(3)]);
    let shares = ShamirSecretShare::shares_from_polynomial(&p, 4);
    let ys: Vec<FieldElement> = shares.iter().map(|s| s.y).collect();
    assert_eq!(ys, vec![fe(12), fe(23), fe(40), fe(63)]);
    let xs: Vec<FieldElement> = shares.iter().map(|s| s.x).collect();
    assert_eq!(xs, vec![fe(1), fe(2), fe(3), fe(4)]);
    assert_eq!(ShamirSecretShare::reconstruct_secret(&shares[1..4], 3), Ok(fe(7)));
    assert!(ShamirSecretShare::shares_from_polynomial(&p, 0).is_empty());
}

#[test]
fn interpolation_of_fixed_points() {
    // points of f(x) = 10 - x at x = 3 and x = 8
    let pts = vec![Share { x: fe(3), y: fe(7) }, Share { x: fe(8), y: fe(2) }];
    assert_eq!(ShamirSecretShare::reconstruct_secret(&pts, 2), Ok(fe(10)));
    // a line through (1, 0) and (2, 1) meets x = 0 at -1
    let pts = vec![Share { x: fe(1), y: fe(0) }, Share { x: fe(2), y: fe(1) }];
    assert_eq!(ShamirSecretShare::reconstruct_secret(&pts, 2), Ok(minus_one()));
}

/// The modulus minus `k`, for small `k`.
fn minus(k: u64) -> FieldElement {
    let m = minus_one();
    FieldElement { l0: m.l0 - (k - 1), ..m }
}

#[test]
fn arithmetic_wraps_around_the_modulus() {
    // f(x) = -1 - x
    let p = Polynomial::with_constant_term(minus_one(), vec![minus_one()]);
    let shares = ShamirSecretShare::shares_from_polynomial(&p, 3);
    let ys: Vec<FieldElement> = shares.iter().map(|s| s.y).collect();
    assert_eq!(ys, vec![minus(2), minus(3), minus(4)]);
    assert_eq!(ShamirSecretShare::reconstruct_secret(&shares[1..3], 2), Ok(minus_one()));
    let single = vec![Share { x: fe(9), y: minus(5) }];
    assert_eq!(ShamirSecretShare::reconstruct_secret(&single, 1), Ok(minus(5)));
}

#[test]
fn field_inverse() {
    assert_eq!(FieldElement::zero().inverse(), None);
    let half = FieldElement {
        l0: 0xa1f0fac9f8000001,
        l1: 0x9419f4243cdcb848,
        l2: 0xdc2822db40c0ac2e,
        l3: 0x183227397098d014,
    };
    assert_eq!(fe(2).inverse(), Some(half));
    assert_eq!(half.inverse(), Some(fe(2)));
    assert_eq!(minus_one().inverse(), Some(minus_one()));
    assert_eq!(FieldElement::one().inverse(), Some(FieldElement::one()));
}

#[test]
fn random_coefficients_vary() {
    let p = ShamirSecretShare::generate_polynomial(fe(1), 3, &mut OsRng).unwrap();
    let q = ShamirSecretShare::generate_polynomial(fe(1), 3, &mut OsRng).unwrap();
    assert_ne!(p.coeffs[1], q.coeffs[1]);
    assert_ne!(p.coeffs[1], p.coeffs[2]);
    assert!(p.coeffs[1].l3 <= 0x30644e72e131a029);
}
