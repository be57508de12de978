use collatz_m4m6::pair_number::PairNumber;
use collatz_m4m6::postprocess::{postprocess, postprocess_legacy};
use num_bigint::BigUint;

#[test]
fn test_postprocess_136() {
    let result = postprocess_legacy(vec![0, 1, 0, 1], vec![0, 0, 0, 0]);
    assert_eq!(result.d, 3);
    assert!(result.exchanged);
    let n_prime = result.next.to_biguint();
    assert_eq!(n_prime, BigUint::from(17u64));
}

#[test]
fn test_postprocess_82() {
    let result = postprocess_legacy(vec![1, 0, 0, 0], vec![0, 0, 1, 1]);
    assert_eq!(result.d, 1);
    assert!(result.exchanged);
    let n_prime = result.next.to_biguint();
    assert_eq!(n_prime, BigUint::from(41u64));
}

#[test]
fn postprocess_even_shift_keeps_the_streams() {
    // 52 = 110100: pairs (0,0), (0,1), (1,1); d = 2, next = 13 = 1101
    let r = postprocess(vec![0b100], vec![0b110], 3);
    assert_eq!(r.d, 2);
    assert!(!r.exchanged);
    assert_eq!(r.next.to_biguint(), BigUint::from(13u64));
    assert_eq!(r.next.pair_count(), 2);
}

#[test]
fn postprocess_trims_the_top() {
    // 5 in ten pairs
    let r = postprocess(vec![0], vec![0b11], 10);
    assert_eq!(r.d, 0);
    assert!(!r.exchanged);
    assert_eq!(r.next.to_biguint(), BigUint::from(5u64));
    assert_eq!(r.next.pair_count(), 2);
}

#[test]
fn postprocess_of_zero() {
    let r = postprocess(vec![0], vec![0], 1);
    assert_eq!(r.d, 128);
    assert!(!r.exchanged);
    assert_eq!(r.next.to_biguint(), BigUint::from(0u64));
    let r = postprocess(Vec::new(), Vec::new(), 0);
    assert_eq!(r.d, 0);
    assert_eq!(r.next.to_biguint(), BigUint::from(0u64));
    let r = postprocess_legacy(vec![0, 0], vec![0, 0]);
    assert_eq!(r.d, 128);
    assert_eq!(r.next.pair_count(), 1);
}

#[test]
fn postprocess_across_words() {
    // 2^200: d = 200, next = 1
    let n = BigUint::from(1u64) << 200u32;
    let p = PairNumber::from_biguint(&n);
    let r = postprocess(p.m4_words().to_vec(), p.m6_words().to_vec(), p.pair_count());
    assert_eq!(r.d, 200);
    assert!(!r.exchanged);
    assert!(r.next.is_one());
    // 3 * 2^129: d = 129, next = 3
    let n = BigUint::from(3u64) << 129u32;
    let p = PairNumber::from_biguint(&n);
    let r = postprocess(p.m4_words().to_vec(), p.m6_words().to_vec(), p.pair_count());
    assert_eq!(r.d, 129);
    assert!(r.exchanged);
    assert_eq!(r.next.to_biguint(), BigUint::from(3u64));
}
