use hackrf_gnss::double::{ascending, is_finite, is_nan, less, nearer_zero, no_fraction, whole, within};

const VALUES: [f64; 19] = [
    f64::NEG_INFINITY, f64::MIN, -1023.5, -1.0, -f64::MIN_POSITIVE, -5e-324, -0.0, 0.0, 5e-324, f64::MIN_POSITIVE,
    0.25, 0.999_999_999_999_999_9, 1.0, 62.5, 63.0, 1023.0, 4_503_599_627_370_495.5, 1e300, f64::INFINITY,
];

#[test]
fn patterns_compare_as_their_numbers() {
    for a in VALUES {
        for b in VALUES {
            assert_eq!(less(a.to_bits(), b.to_bits()), a < b, "{a} {b}");
            assert_eq!(nearer_zero(a.to_bits(), b.to_bits()), a.abs() < b.abs(), "{a} {b}");
        }
        assert_eq!(is_finite(a.to_bits()), a.is_finite());
        assert!(!is_nan(a.to_bits()));
    }
    assert!(is_nan(f64::NAN.to_bits()) && !is_finite(f64::NAN.to_bits()));
}

#[test]
fn whole_parts_of_numbers() {
    for v in VALUES {
        let want = v.abs().trunc();
        if want < 4_503_599_627_370_496.0 {
            assert_eq!(whole(v.to_bits()), Some(want as u64), "{v}");
            assert_eq!(no_fraction(v.to_bits()), v.fract() == 0.0, "{v}");
        } else {
            assert_eq!(whole(v.to_bits()), None, "{v}");
        }
    }
    for hi in [0u64, 1, 63, 1023] {
        for v in VALUES {
            assert_eq!(within(v.to_bits(), hi), (0.0..=hi as f64).contains(&v), "{v} {hi}");
        }
    }
}

#[test]
fn places_in_ascending_order() {
    let keys: Vec<u64> = [2.0f64, -1.0, 2.0, 0.0, -0.0].iter().map(|k| k.to_bits()).collect();
    assert_eq!(ascending(&keys), vec![1, 3, 4, 0, 2]);
    assert_eq!(ascending(&[]), Vec::<usize>::new());
}
