use segcore::gcd::{compute_gcd, find_gcd};

#[test]
fn test_compute_gcd() {
    let test_compute_gcd_aux = |large: u64, small: u64, expected: u64| {
        assert_eq!(compute_gcd(small, large), expected);
        assert_eq!(compute_gcd(large, small), expected);
    };
    test_compute_gcd_aux(1, 4, 1);
    test_compute_gcd_aux(2, 4, 2);
    test_compute_gcd_aux(10, 25, 5);
    test_compute_gcd_aux(25, 25, 25);
}

#[test]
fn find_gcd_test() {
    assert_eq!(find_gcd(&[0]), None);
    assert_eq!(find_gcd(&[0, 10]), Some(10));
    assert_eq!(find_gcd(&[10, 0]), Some(10));
    assert_eq!(find_gcd(&[]), None);
    assert_eq!(find_gcd(&[15, 30, 5, 10]), Some(5));
    assert_eq!(find_gcd(&[15, 16, 10]), Some(1));
    assert_eq!(find_gcd(&[0, 5, 5, 5]), Some(5));
    assert_eq!(find_gcd(&[0, 0]), None);
}

#[test]
fn find_gcd_large_values() {
    assert_eq!(find_gcd(&[u64::MAX, u64::MAX]), Some(u64::MAX));
    assert_eq!(find_gcd(&[u64::MAX - 1, 2]), Some(2));
    assert_eq!(find_gcd(&[1 << 40, 1 << 20, 1 << 10]), Some(1 << 10));
}

#[test]
fn compute_gcd_coprime_and_equal() {
    assert_eq!(compute_gcd(17, 31), 1);
    assert_eq!(compute_gcd(1000, 1000), 1000);
    assert_eq!(compute_gcd(1, 1), 1);
}

#[test]
fn find_gcd_divides_every_value_and_is_maximal() {
    let vals = [12u64, 18, 24, 0];
    let g = find_gcd(&vals).unwrap();
    assert_eq!(g, 6);
    for v in vals {
        assert_eq!(v % g, 0);
    }
    // no larger divisor is common to the non-zero values
    for d in (g + 1)..=24 {
        assert!(vals.iter().any(|v| *v != 0 && *v % d != 0));
    }
}
