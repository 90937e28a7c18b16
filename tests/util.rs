use radix_pack::util::{translate_radix, CodecError};

#[test]
fn test_translate_radix() {
    assert_eq!(translate_radix(&[], 10, 10).unwrap(), &[]);
    assert_eq!(translate_radix(&[1], 10, 10).unwrap(), &[1]);
    assert_eq!(
        translate_radix(&[1, 2, 3], 10, 2).unwrap(),
        &[1, 0, 0, 0, 0, 0, 1, 0, 1]
    );
    assert_eq!(
        translate_radix(&[1, 0, 0, 0, 0, 0, 1, 0, 1], 2, 10).unwrap(),
        &[1, 2, 3]
    );
    assert_eq!(
        translate_radix(&[28, 44, 30, 36], 95, 318).unwrap(),
        &[308, 299, 307]
    );
}

#[test]
fn translate_radix_round_trip_strips_high_zeros() {
    let d = vec![7, 0, 3, 9, 0, 0];
    let there = translate_radix(&d, 10, 1001).unwrap();
    let back = translate_radix(&there, 1001, 10).unwrap();
    assert_eq!(back, vec![7, 0, 3, 9]);
    assert_eq!(translate_radix(&[0, 0, 0], 5, 7).unwrap(), Vec::<i32>::new());
}

#[test]
fn translate_radix_large_numbers() {
    // 40 digits of 9 in base 10 need several limbs
    let nines = vec![9; 40];
    let bin = translate_radix(&nines, 10, 2).unwrap();
    assert_eq!(bin.len(), 133);
    assert_eq!(translate_radix(&bin, 2, 10).unwrap(), nines);
    let big = translate_radix(&[1, 1], 0x8000_0000, 0x7fff_ffff).unwrap();
    assert_eq!(big, vec![2, 1]);
}

#[test]
fn translate_radix_invalid_digit() {
    assert_eq!(translate_radix(&[1, 10], 10, 2), Err(CodecError::InvalidDigit));
    assert_eq!(translate_radix(&[-1], 10, 2), Err(CodecError::InvalidDigit));
}
