use hackrf_gnss::beidou_d1::nh_peak;
use hackrf_gnss::double::{less, twice};
use hackrf_gnss::fusion::{
    capture_count, closest_sat, doppler_pairs, epoch_shift, find_sat, ObsKind, MATCH_HZ,
};
use hackrf_gnss::gps::ephemeris::{comparison, Comparison};
use hackrf_gnss::gps::pvt::{worst, REJECT_THRESH_M};
use hackrf_gnss::gps::verdict::{calibrate_min_r2, confirmed, crossings, ACQ_THRESHOLD, MAX_RATE};
use hackrf_gnss::iridium::geo::{doppler_match, hops, settle, Attempt, LARGEST, ONE, TEN};
use hackrf_gnss::iridium::ppm::{best_shift, nearest_channel, TimeShift, MATCH_KM, SHIFTED_MATCH_KM};
use hackrf_gnss::pick::{highest_beyond, lowest, nearest_zero, next_lowest};

fn d(v: &[f64]) -> Vec<u64> {
    v.iter().map(|x| x.to_bits()).collect()
}

#[test]
fn bounds_are_the_doubles_they_are_named_for() {
    assert_eq!((LARGEST, ONE, TEN), (f64::MAX.to_bits(), 1.0f64.to_bits(), 10.0f64.to_bits()));
    assert_eq!((MATCH_KM, SHIFTED_MATCH_KM), (200.0f64.to_bits(), 100.0f64.to_bits()));
    assert_eq!((REJECT_THRESH_M, MATCH_HZ), (1000.0f64.to_bits(), 2500.0f64.to_bits()));
    assert_eq!((ACQ_THRESHOLD, MAX_RATE), (2.5f64.to_bits(), 0.9f64.to_bits()));
}

#[test]
fn lowest_and_highest_numbers() {
    let v = d(&[3.0, -1.0, 7.0, -1.0, 7.0]);
    assert_eq!((lowest(&v), next_lowest(&v, 1), next_lowest(&v, 3)), (Some(1), Some(3), Some(1)));
    assert_eq!((lowest(&[]), next_lowest(&v[..1], 0)), (None, None));
    assert_eq!(nearest_zero(&v), Some(1));
    assert_eq!(highest_beyond(&v, 2.0f64.to_bits()), Some(2));
    assert_eq!(highest_beyond(&v, 7.0f64.to_bits()), None);
    assert_eq!(highest_beyond(&d(&[f64::NAN]), 0), None);
}

#[test]
fn twice_a_number() {
    for x in [0.0, 5e-324, 1.2e-308, f64::MIN_POSITIVE, 0.15, 1.0, 1e300] {
        assert_eq!(twice(f64::to_bits(x)), (2.0 * x).to_bits(), "{x}");
    }
    assert!(less(LARGEST, twice(LARGEST)));
}

#[test]
fn the_start_of_the_bits_stands_out() {
    let mut acc = [1.0; 20];
    acc[7] = 2.5;
    assert_eq!(nh_peak(&d(&acc)), Some(7));
    acc[7] = 2.0;
    assert_eq!(nh_peak(&d(&acc)), None);
    assert_eq!(nh_peak(&d(&[0.0; 20])), None);
}

#[test]
fn a_clear_doppler_match() {
    let tol = 500.0f64.to_bits();
    assert_eq!(doppler_match(&d(&[900.0, 120.0, 240.0]), tol), Some(1));
    assert_eq!(doppler_match(&d(&[900.0, 120.0, 239.0]), tol), None, "another is too near");
    assert_eq!(doppler_match(&d(&[900.0, 500.0]), tol), None, "beyond the tolerance");
    assert_eq!(doppler_match(&d(&[0.1, 1.9]), tol), None, "both within two hertz");
    assert_eq!(doppler_match(&d(&[0.1]), tol), Some(0));
    assert_eq!(doppler_match(&[], tol), None);
}

fn attempt(converged: bool, rms: f64, sigma: f64) -> Attempt {
    Attempt { converged, rms_hz: rms.to_bits(), sigma_km: sigma.to_bits() }
}

#[test]
fn attempts_settle_on_a_basin() {
    let a = [
        attempt(true, 10.0, 50.0),
        attempt(true, 20.0, 3.0),
        attempt(true, 25.0, 2.0),
        attempt(true, 39.0, 10.0),
        attempt(false, f64::MAX, f64::MAX),
    ];
    let mut near: Vec<Vec<bool>> = (0..5).map(|i| (0..5).map(|j| i == j).collect()).collect();
    near[1][2] = true;
    near[2][1] = true;
    let s = settle(&a, &near);
    assert_eq!((s.kept, s.best, s.next, s.ambiguous), (vec![0, 1, 3], Some(1), Some(2), true));
    let clear = [a[1], attempt(true, 40.0, 1.0)];
    let s = settle(&clear, &[vec![true, false], vec![false, true]]);
    assert_eq!((s.best, s.next, s.ambiguous), (Some(0), Some(1), false));
    let s = settle(&a[4..], &[vec![true]]);
    assert_eq!((s.kept.len(), s.best, s.next, s.ambiguous), (0, None, None, false));
    assert_eq!(hops(&a), vec![0, 1, 2, 3]);
    assert_eq!(hops(&[a[0]; 9]), vec![0, 1, 2, 3, 4]);
}

#[test]
fn the_worst_residual_beyond_the_threshold() {
    assert_eq!(worst(&d(&[10.0, 2000.0, 5000.0, 5000.0])), Some(2));
    assert_eq!(worst(&d(&[10.0, 1000.0])), None);
    assert_eq!(worst(&[]), None);
}

#[test]
fn crossings_are_grouped_by_satellite() {
    let g = crossings(&[9, 3, 9, 5, 3], &d(&[3.0, 2.6, 9.9, 2.5, 1.0]));
    let list: Vec<(u64, Vec<usize>)> = g.into_iter().map(|x| (x.prn, x.places)).collect();
    assert_eq!(list, vec![(3, vec![1]), (9, vec![0, 2])]);
}

#[test]
fn a_pass_is_confirmed_by_rate_fit_and_direction() {
    let c = |rate: f64, r2: f64, rev| confirmed(rate.to_bits(), MAX_RATE, r2.to_bits(), 0.8f64.to_bits(), rev, 1);
    assert!(c(-0.55, 0.99, 1));
    assert!(confirmed(1.5f64.to_bits(), 2.0f64.to_bits(), 0.9f64.to_bits(), 0.8f64.to_bits(), 0, 1));
    assert!(!confirmed(0.0f64.to_bits(), (-2.0f64).to_bits(), 0.9f64.to_bits(), 0.8f64.to_bits(), 0, 1));
    assert!(!c(-0.9, 0.99, 0) && !c(0.5, 0.8, 0) && !c(0.5, 0.9, 2) && !c(f64::NAN, 0.9, 0));
}

fn calibrate(lists: &[Vec<f64>], target: f64, floor: f64) -> f64 {
    let lists: Vec<Vec<u64>> = lists.iter().map(|l| d(l)).collect();
    let budget = (target * lists.len() as f64).round() as usize;
    f64::from_bits(calibrate_min_r2(&lists, budget, floor.to_bits()))
}

#[test]
fn calibration_never_falls_below_the_floor() {
    assert_eq!(calibrate(&[], 0.5, 0.80), 0.80);
    assert_eq!(calibrate(&vec![vec![]; 100], 0.5, 0.80), 0.80);
    assert_eq!(calibrate(&vec![vec![0.1]; 100], 0.5, 0.80), 0.80);
}

#[test]
fn calibration_tightens_as_candidates_accumulate() {
    let few = vec![vec![0.99, 0.95]; 100];
    let many = vec![vec![0.99, 0.98, 0.97, 0.96, 0.95]; 100];
    let a = calibrate(&few, 0.5, 0.5);
    let b = calibrate(&many, 0.5, 0.5);
    assert!(b >= a, "more candidates must not loosen the bound: {a} -> {b}");
    assert_eq!(calibrate(&[vec![0.9, 0.7], vec![0.8]], 0.5, 0.5), 0.8);
}

#[test]
fn the_nearest_channel() {
    assert_eq!(nearest_channel(&d(&[-26.0, -0.4, 25.0])), Some(1));
    assert_eq!(nearest_channel(&d(&[-3.0, 3.0])), Some(0));
}

#[test]
fn the_time_at_which_a_satellite_matches() {
    let far = d(&[500.0, 60.0, 60.0]);
    assert_eq!(best_shift(Some(199.0f64.to_bits()), &far), TimeShift::Exact);
    assert_eq!(best_shift(Some(200.0f64.to_bits()), &far), TimeShift::Shifted(1));
    assert_eq!(best_shift(None, &d(&[100.0])), TimeShift::NoMatch);
    assert_eq!(best_shift(None, &[]), TimeShift::NoMatch);
}

fn names(list: &[&str]) -> Vec<String> {
    list.iter().map(|s| s.to_string()).collect()
}

#[test]
fn observations_find_their_satellites() {
    let sats = names(&["A", "B", "A"]);
    assert_eq!((find_sat(&sats, &"A".to_string()), find_sat(&sats, &"C".to_string())), (Some(0), None));
    let kinds = [ObsKind::DopplerHz, ObsKind::TimeFix, ObsKind::DopplerHz, ObsKind::DopplerHz];
    assert_eq!(doppler_pairs(&kinds, &names(&["B", "A", "C", "A"]), &sats), vec![(0, 1), (3, 0)]);
    assert_eq!((capture_count(&[2, 0, 2]), capture_count(&[])), (3, 1));
}

#[test]
fn the_closest_predicted_shift() {
    assert_eq!(closest_sat(&d(&[5000.0, 300.0, 600.0])), Some(1));
    assert_eq!(closest_sat(&d(&[5000.0, 300.0, 599.0])), None);
    assert_eq!(closest_sat(&d(&[2500.0])), Some(0));
    assert_eq!(closest_sat(&d(&[2500.1])), None);
    assert_eq!(closest_sat(&[]), None);
}

#[test]
fn the_shift_of_the_clock() {
    let m = |v: &[f64]| epoch_shift(&d(v)).map(f64::from_bits);
    assert_eq!(m(&[0.0, 10.0, -0.0, -20.0, 30.0]), Some(10.0));
    assert_eq!(m(&[10.0, -20.0]), Some(10.0));
    assert_eq!(m(&[0.0, -0.0]), None);
}

#[test]
fn how_far_a_comparison_gets() {
    let min = 0.0f64.to_bits();
    let el = |v: &[f64]| -> Vec<Option<u64>> { v.iter().map(|x| Some(x.to_bits())).collect() };
    let c = |known, e: &[Option<u64>]| comparison(known, e, min);
    assert_eq!(c(false, &el(&[1.0; 3])).reason(), Some("PRN not in TLE set"));
    assert_eq!(c(true, &el(&[1.0; 2])).reason(), Some("too few crossings"));
    assert_eq!(c(true, &[None, None, None]).reason(), Some("SGP4 failed"));
    assert_eq!(c(true, &el(&[-1.0, 0.0, -3.0])).reason(), Some("PRN below the horizon at these times"));
    assert_eq!(c(true, &el(&[-1.0, 0.1, -3.0])), Comparison::Compared);
    assert_eq!(Comparison::Compared.reason(), None);
}
