use secret_sharing::field::{evaluate_polynomial, interpolate_at_zero, lagrange_coefficient, mod_inverse};
use secret_sharing::uint::Uint;

fn n(v: u64) -> Uint {
    Uint::from_u64(v)
}

#[test]
fn evaluate_polynomial_exact() {
    let c = vec![n(7), n(3), n(5)];
    assert_eq!(evaluate_polynomial(&c, &n(3), &n(11)), n(6));
    assert_eq!(evaluate_polynomial(&c, &n(2), &n(11)), n(0));
    assert_eq!(evaluate_polynomial(&c, &n(2), &n(1000)), n(33));
    assert_eq!(evaluate_polynomial(&vec![], &n(2), &n(11)), n(0));
}

#[test]
fn mod_inverse_by_fermat() {
    assert_eq!(mod_inverse(&n(3), &n(11)), Some(n(4)));
    assert_eq!(mod_inverse(&n(10), &n(11)), Some(n(10)));
    assert_eq!(mod_inverse(&n(0), &n(11)), None);
}

#[test]
fn lagrange_coefficients_at_zero() {
    let xs = vec![n(1), n(2), n(3)];
    assert_eq!(lagrange_coefficient(&xs, 0, &n(11)), Some(n(3)));
    assert_eq!(lagrange_coefficient(&xs, 1, &n(11)), Some(n(8)));
    assert_eq!(lagrange_coefficient(&xs, 2, &n(11)), Some(n(1)));
    let dup = vec![n(1), n(12), n(3)];
    assert_eq!(lagrange_coefficient(&dup, 0, &n(11)), None);
}

#[test]
fn interpolate_at_zero_exact() {
    let xs = vec![n(1), n(2), n(3)];
    let ys = vec![n(4), n(0), n(6)];
    assert_eq!(interpolate_at_zero(&xs, &ys, &n(11)), Some(n(7)));
    assert_eq!(interpolate_at_zero(&vec![], &vec![], &n(11)), Some(n(0)));
    let dup = vec![n(2), n(2), n(3)];
    assert_eq!(interpolate_at_zero(&dup, &ys, &n(11)), None);
    let zero = vec![n(0), n(1), n(2)];
    assert_eq!(interpolate_at_zero(&zero, &vec![n(7), n(4), n(0)], &n(11)), None);
    let zero_mod = vec![n(1), n(22), n(3)];
    assert_eq!(interpolate_at_zero(&zero_mod, &ys, &n(11)), None);
}
