use collatz_m4m6::reference::RefPattern;

#[test]
fn test_ref_pattern_x3() {
    let rp = RefPattern::new(3);
    assert_eq!(rp.s, 1);
    assert_eq!(rp.t, 0);
    assert!(!rp.s_is_even);
}

#[test]
fn test_ref_pattern_x5() {
    let rp = RefPattern::new(5);
    assert_eq!(rp.s, 2);
    assert_eq!(rp.t, 1);
    assert!(rp.s_is_even);
}

#[test]
fn test_ref_pattern_x9() {
    let rp = RefPattern::new(9);
    assert_eq!(rp.s, 3);
    assert_eq!(rp.t, 1);
    assert!(!rp.s_is_even);
}

#[test]
fn test_ref_pattern_x17() {
    let rp = RefPattern::new(17);
    assert_eq!(rp.s, 4);
    assert_eq!(rp.t, 2);
    assert!(rp.s_is_even);
}
