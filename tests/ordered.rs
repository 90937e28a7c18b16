use radix_pack::ordered::{
    count_with_limit, decode, encode, leb_decode, leb_encode, uncount_with_limit, IN_MAX, IN_MIN,
};
use radix_pack::util::CodecError;

#[test]
fn test_leb_encode() {
    assert_eq!(leb_encode(0), vec![b' ']);
    assert_eq!(leb_encode(1), vec![b'!']);
    assert_eq!(leb_encode(1234), vec![b'[', b':']);
}

#[test]
fn test_leb_decode() {
    assert_eq!(leb_decode(&[b' ']), Ok((0, 1)));
    assert_eq!(leb_decode(&[b'!']), Ok((1, 1)));
    assert_eq!(leb_decode(&[b'[', b':']), Ok((1234, 2)));
}

#[test]
fn test_count_with_limit_uncount_with_limit() {
    let in1 = vec![IN_MAX; 2];
    let out1 = vec![IN_MAX; 2];
    let in2 = vec![IN_MAX; 3];
    let out2 = vec![IN_MAX + 1, IN_MAX];
    let in3 = vec![IN_MAX; 4];
    let out3 = vec![IN_MAX + 2, IN_MAX];
    let in4 = vec![IN_MAX; 11];
    let lim4 = 4;
    let out4 = vec![IN_MAX + 2, IN_MAX, IN_MAX + 2, IN_MAX, IN_MAX + 1, IN_MAX];
    let in5 = vec![
        IN_MAX, IN_MAX, IN_MAX, IN_MAX, IN_MAX, IN_MAX, IN_MAX, IN_MAX, IN_MAX, IN_MAX, IN_MAX,
        IN_MIN, IN_MIN, IN_MIN,
    ];
    let lim5 = 4;
    let out5 = vec![
        IN_MAX + 2,
        IN_MAX,
        IN_MAX + 2,
        IN_MAX,
        IN_MAX + 1,
        IN_MAX,
        IN_MAX + 1,
        IN_MIN,
    ];
    assert_eq!(&count_with_limit(&in1, 100), &out1);
    assert_eq!(&count_with_limit(&in2, 100), &out2);
    assert_eq!(&count_with_limit(&in3, 100), &out3);
    assert_eq!(&count_with_limit(&in4, lim4), &out4);
    assert_eq!(&count_with_limit(&in5, lim5), &out5);

    assert_eq!(&uncount_with_limit(&out1, 100), &in1);
    assert_eq!(&uncount_with_limit(&out2, 100), &in2);
    assert_eq!(&uncount_with_limit(&out3, 100), &in3);
    assert_eq!(&uncount_with_limit(&out4, lim4), &in4);
    assert_eq!(&uncount_with_limit(&out5, lim5), &in5);
}

#[test]
fn test_encode_decode() {
    let data = vec![
        300, 300, 300, 300, 300, 300, 300, 300, 300, 300, 300, 1, 1, 1,
    ];

    let a = encode(&data).unwrap();
    assert_eq!(decode(&a).unwrap(), data);
}

#[test]
fn ordered_limit_is_longest_run() {
    let data = vec![
        300, 300, 300, 300, 300, 300, 300, 300, 300, 300, 300, 1, 1, 1,
    ];
    let a = encode(&data).unwrap();
    // header holds limit - 2 = 9 in a single final byte
    assert_eq!(a[0], b' ' + 9);
    assert_eq!(leb_decode(&a), Ok((9, 1)));
}

#[test]
fn ordered_header_with_payload_after_it() {
    let mut bytes = leb_encode(100_000);
    let n = bytes.len();
    bytes.extend_from_slice(b"xyz ~");
    assert_eq!(leb_decode(&bytes), Ok((100_000, n)));
    let max = leb_encode(u32::MAX);
    assert_eq!(leb_decode(&max), Ok((u32::MAX, max.len())));
}

#[test]
fn ordered_header_errors() {
    assert_eq!(leb_decode(&[]), Err(CodecError::MalformedInput));
    assert_eq!(leb_decode(&[b'O', b'O']), Err(CodecError::MalformedInput));
    assert_eq!(leb_decode(&[0x7f]), Err(CodecError::MalformedInput));
    assert_eq!(leb_decode(&[b'~'; 7]), Err(CodecError::MalformedInput));
    let mut too_big = vec![b'~'; 6];
    too_big.push(b'!');
    assert_eq!(leb_decode(&too_big), Err(CodecError::MalformedInput));
}

#[test]
fn ordered_round_trip_keeps_order() {
    let mut data = Vec::new();
    for i in 0..2000i32 {
        data.push((i * 7919) % 300 + 1);
        if i % 13 == 0 {
            data.push(data[data.len() - 1]);
            data.push(data[data.len() - 1]);
        }
    }
    let a = encode(&data).unwrap();
    assert_eq!(decode(&a).unwrap(), data);
    let rev: Vec<i32> = data.iter().rev().copied().collect();
    assert_eq!(decode(&encode(&rev).unwrap()).unwrap(), rev);
}

#[test]
fn ordered_empty_and_minimum_values() {
    let e = encode(&[]).unwrap();
    assert_eq!(e, vec![b' ', b'!']);
    assert_eq!(decode(&e).unwrap(), Vec::<i32>::new());
    let ones = vec![1; 5];
    assert_eq!(decode(&encode(&ones).unwrap()).unwrap(), ones);
    let single = vec![1];
    assert_eq!(decode(&encode(&single).unwrap()).unwrap(), single);
}

#[test]
fn ordered_output_is_printable() {
    let data: Vec<i32> = (1..=300).chain((1..=300).rev()).collect();
    let a = encode(&data).unwrap();
    assert!(a.iter().all(|&b| (0x20..=0x7e).contains(&b)));
}

#[test]
fn ordered_out_of_range() {
    assert_eq!(encode(&[1, 0, 2]), Err(CodecError::OutOfRange));
    assert_eq!(encode(&[301]), Err(CodecError::OutOfRange));
}

#[test]
fn ordered_malformed_input() {
    assert_eq!(decode(&[]), Err(CodecError::MalformedInput));
    // header only: no sentinel digit
    assert_eq!(decode(&[b' ']), Err(CodecError::MalformedInput));
    // payload digit 2 in base 95 is digit 2 in base 300: not the sentinel
    assert_eq!(decode(&[b' ', b'"']), Err(CodecError::MalformedInput));
    assert_eq!(decode(&[b' ', 0x7f]), Err(CodecError::MalformedInput));
}

#[test]
fn ordered_fold_of_short_runs_is_identity() {
    assert_eq!(count_with_limit(&[5, 5, 7, 5], 2), vec![5, 5, 7, 5]);
    assert_eq!(count_with_limit(&[5, 5, 5], 2), vec![5, 5, 5]);
    assert_eq!(uncount_with_limit(&[IN_MAX + 3, 9, 4], 5), vec![9, 9, 9, 9, 9, 4]);
}

#[test]
fn ordered_header_tilde_is_continuation_zero() {
    assert_eq!(leb_decode(&[b'~', b' ']), Ok((0, 2)));
    assert_eq!(leb_decode(&[b'O', b'!']), Ok((47, 2)));
    assert_eq!(leb_decode(&[b'~', b'!']), Ok((47, 2)));
}
