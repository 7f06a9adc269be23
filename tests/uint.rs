use secret_sharing::uint::Uint;

fn n(v: u64) -> Uint {
    Uint::from_u64(v)
}

#[test]
fn uint_digits_round_trip() {
    assert_eq!(n(4294967296).to_u32_digits(), vec![0, 1]);
    assert_eq!(n(112500000000).to_u32_digits(), vec![830850304, 26]);
    assert_eq!(n(0).to_u32_digits(), Vec::<u32>::new());
    assert_eq!(Uint::from_u32_digits(vec![5, 0, 0]), n(5));
    assert_eq!(Uint::from_u32_digits(vec![0, 1]), n(4294967296));
    assert_eq!(Uint::zero(), n(0));
}

#[test]
fn uint_copy_keeps_value() {
    assert_eq!(n(4294967297).copy(), n(4294967297));
    assert_eq!(Uint::from_u32_digits(vec![7, 3]).copy().to_u32_digits(), vec![7, 3]);
}
