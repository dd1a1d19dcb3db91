use hackrf_gnss::gps::acquire::{circular_offset, drift_source, outside_peak};
use hackrf_gnss::gps::pvt::{mixed_counts, Rejection, MIN_SATS};
use hackrf_gnss::gps::track::{bit_starts, bit_sync};
use hackrf_gnss::gps::verdict::{marked_prns, passes, reversals, Rng};

#[test]
fn a_shuffle_keeps_the_values() {
    let mut r = Rng(20260815);
    let first = r.next();
    assert_eq!(r.0, first);
    let mut x = 20260815u64;
    x ^= x << 13;
    x ^= x >> 7;
    x ^= x << 17;
    assert_eq!(first, x);
    let mut v: Vec<u32> = (0..50).collect();
    r.shuffle(&mut v);
    assert_ne!(v, (0..50).collect::<Vec<u32>>());
    v.sort();
    assert_eq!(v, (0..50).collect::<Vec<u32>>());
    let mut empty: Vec<u32> = Vec::new();
    r.shuffle(&mut empty);
    assert!(empty.is_empty());
}

#[test]
fn long_gaps_split_passes() {
    assert_eq!(passes(&[false, false, true, false]), vec![(0, 2), (2, 4)]);
    assert_eq!(passes(&[false]), vec![(0, 1)]);
    assert_eq!(passes(&[]), Vec::<(usize, usize)>::new());
}

#[test]
fn the_rarer_direction_counts_as_reversal() {
    assert_eq!(reversals(&[-1, -1, 1, -1, 0]), 1);
    assert_eq!(reversals(&[1, 1, 1]), 0);
    assert_eq!(reversals(&[]), 0);
}

#[test]
fn confirmed_satellites_are_listed_once() {
    assert_eq!(marked_prns(&[9, 3, 9, 5], &[true, true, true, false]), vec![3, 9]);
}

#[test]
fn bits_start_where_signs_change() {
    let signs: Vec<bool> = (0..400).map(|i| ((i + 13) / 20) % 2 == 0).collect();
    let s = bit_sync(&signs);
    assert_eq!((s.phase, s.hits, s.total, s.synced), (7, 20, 20, true));
    assert_eq!(bit_starts(100, 7), vec![7, 27, 47, 67]);
    assert_eq!(bit_starts(5, 7), Vec::<usize>::new());
    assert!(!bit_sync(&[true; 100]).synced);
}

#[test]
fn places_on_a_circle() {
    assert_eq!(circular_offset(1, 9, 10), 2);
    assert_eq!(circular_offset(9, 1, 10), -2);
    assert_eq!(circular_offset(6, 1, 10), 5);
    assert_eq!(circular_offset(1, 6, 10), -5);
    assert_eq!(outside_peak(0, 8, 2), vec![3, 4, 5]);
    assert_eq!(drift_source(1, 3, 10), 8);
    assert_eq!(drift_source(1, -12, 10), 3);
}

#[test]
fn a_mixed_fix_needs_both_systems() {
    assert_eq!(mixed_counts(&[0, 0, 0, 1, 1]), Some((3, 2)));
    assert_eq!(mixed_counts(&[0, 0, 1, 1]), None);
    assert_eq!(mixed_counts(&[0, 0, 0, 0, 0]), None);
    assert_eq!(mixed_counts(&[1, 1, 1, 1, 1]), None);
}

#[test]
fn the_worst_measurement_goes_first() {
    let mut r = Rejection::new(6);
    assert!(r.drop_worst(Some(2), MIN_SATS, 2));
    assert_eq!((r.kept.clone(), r.dropped.clone()), (vec![0, 1, 3, 4, 5], vec![2]));
    assert!(!r.drop_worst(None, MIN_SATS, 2));
    assert!(r.drop_worst(Some(2), MIN_SATS, 2));
    assert_eq!(r.dropped, vec![2, 3]);
    assert!(!r.drop_worst(Some(0), MIN_SATS, 9), "four are left");
    assert!(!Rejection::new(9).drop_worst(Some(0), MIN_SATS, 0));
}
