use radix_pack::unordered::{decode, decode_inner, encode, encode_inner, IN_MAX, IN_MIN};
use radix_pack::util::CodecError;

fn sorted(v: &[i32]) -> Vec<i32> {
    let mut v = v.to_vec();
    v.sort();
    v
}

#[test]
fn test_encode_inner() {
    assert_eq!(encode_inner(&[1, 2, 3, 4, 5]), vec![(vec![(1, 4)], 1)]);
    assert_eq!(
        encode_inner(&[1, 2, 3, 3, 4, 5]),
        vec![(vec![(1, 1), (4, 1)], 1), (vec![(3, 0)], 2)]
    );

    println!("{:?}", encode_inner(&[1, 2, 3, 4, 5, 3]));
}

#[test]
fn test_decode_inner() {
    assert_eq!(
        vec![1, 2, 3, 3, 4, 5],
        decode_inner(&[(vec![(1, 1), (4, 1)], 1), (vec![(3, 0)], 2)])
    );
}

#[test]
fn encode_decode() {
    let t1 = vec![1, 2, 3, 4, 5];
    let t2 = vec![1, 2, 3, 3, 4, 5];
    let t3 = vec![1, 1, 1, 2, 2, 3, 3, 4, 5, 6, 7, 7];
    let t4 = vec![IN_MIN, IN_MIN, 10, 10, 10, IN_MAX, IN_MAX];
    assert_eq!(&decode(&encode(&t1).unwrap()).unwrap(), &t1);
    assert_eq!(&decode(&encode(&t2).unwrap()).unwrap(), &t2);
    assert_eq!(&decode(&encode(&t3).unwrap()).unwrap(), &t3);
    assert_eq!(&decode(&encode(&t4).unwrap()).unwrap(), &t4);
}

#[test]
fn unordered_groups_by_count() {
    let g = encode_inner(&[5, 3, 4, 2, 3, 1]);
    assert_eq!(g, vec![(vec![(1, 1), (4, 1)], 1), (vec![(3, 0)], 2)]);
    let a = encode(&[5, 3, 4, 2, 3, 1]).unwrap();
    assert_eq!(decode(&a).unwrap(), vec![1, 2, 3, 3, 4, 5]);
}

#[test]
fn unordered_multiset_round_trip() {
    let mut data = Vec::new();
    for i in 0..3000i32 {
        data.push((i * 7919 + 13) % 1000 + 1);
    }
    let a = encode(&data).unwrap();
    assert!(a.iter().all(|&b| (0x20..=0x7e).contains(&b)));
    assert_eq!(decode(&a).unwrap(), sorted(&data));
}

#[test]
fn unordered_empty() {
    let a = encode(&[]).unwrap();
    assert!(a.is_empty());
    assert_eq!(decode(&a).unwrap(), Vec::<i32>::new());
}

#[test]
fn unordered_errors() {
    assert_eq!(encode(&[0]), Err(CodecError::OutOfRange));
    assert_eq!(encode(&[1001]), Err(CodecError::OutOfRange));
    assert_eq!(encode(&vec![7; 1001]), Err(CodecError::InvalidDigit));
    let many = vec![7; 1000];
    assert_eq!(decode(&encode(&many).unwrap()).unwrap(), many);
    // a single digit below 1001 is half a pair
    assert_eq!(decode(&[b'!']), Err(CodecError::MalformedInput));
    assert_eq!(decode(&[0x1f]), Err(CodecError::MalformedInput));
}

#[test]
fn unordered_bytes_depend_on_multiset_only() {
    let a = encode(&[9, 1, 2, 9, 3, 7]).unwrap();
    let b = encode(&[3, 9, 7, 2, 9, 1]).unwrap();
    assert_eq!(a, b);
    let c = encode(&[3, 9, 7, 2, 9, 2]).unwrap();
    assert_ne!(a, c);
    let g = encode_inner(&[10, 8, 9, 1, 3, 2]);
    assert_eq!(g, vec![(vec![(1, 2), (8, 2)], 1)]);
}
