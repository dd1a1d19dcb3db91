use hackrf_gnss::fusion::{bin_offset, carrier_bin};
use hackrf_gnss::gps::ephemeris::agrees;
use hackrf_gnss::iridium::blobs::distinct;
use hackrf_gnss::iridium::demod3::{edges, symbol_window, SymbolWindow};

fn bits(v: &[f64]) -> Vec<u64> {
    v.iter().map(|x| x.to_bits()).collect()
}

#[test]
fn repeated_bursts_are_dropped() {
    let t = [0.0f64, 0.003, 0.006, 0.5, 0.501];
    let near: Vec<Vec<bool>> =
        t.iter().map(|a| t.iter().map(|b| (b - a).abs() < 0.004).collect()).collect();
    // the third is near the second, which was dropped, and not near the first
    assert_eq!(distinct(&near), vec![0, 2, 3]);
    assert!(distinct(&[]).is_empty());
}

#[test]
fn edges_are_the_outermost_loud_samples() {
    let level = bits(&[0.1, 2.0, 0.2, 3.0, f64::NAN, 0.0]);
    assert_eq!(edges(&level, 1.0f64.to_bits(), 2), Some((1, 3)));
    assert_eq!(edges(&level, 1.0f64.to_bits(), 3), None);
    assert_eq!(edges(&level, 2.5f64.to_bits(), 1), Some((3, 3)));
}

#[test]
fn symbol_windows_are_cut_at_the_ends() {
    assert_eq!(symbol_window(40, 1000), Some(SymbolWindow { from: 35, to: 551, hint: 66 }));
    assert_eq!(symbol_window(3, 200), Some(SymbolWindow { from: 0, to: 200, hint: 64 }));
    assert_eq!(symbol_window(40, 35), None);
}

#[test]
fn carriers_are_sought_around_the_ring() {
    let power = bits(&[5.0, 1.0, 9.0, 0.0, 7.0, 6.0]);
    assert_eq!(carrier_bin(&power, 0, 1), Some(5));
    assert_eq!(carrier_bin(&power, 0, 2), Some(2));
    assert_eq!(carrier_bin(&power, 3, 0), None);
    assert_eq!(carrier_bin(&bits(&[1.0, 4.0, 4.0]), 1, 1), Some(1));
}

#[test]
fn upper_bins_are_negative_frequencies() {
    assert_eq!(bin_offset(0, 8), 0);
    assert_eq!(bin_offset(4, 8), 4);
    assert_eq!(bin_offset(5, 8), -3);
    assert_eq!(bin_offset(7, 8), -1);
    assert_eq!(bin_offset(2, 5), 2);
    assert_eq!(bin_offset(3, 5), -2);
}

#[test]
fn agreement_needs_both_tolerances() {
    let b = f64::to_bits;
    assert!(agrees(b(-0.1), b(0.15), b(2000.0), b(2500.0)));
    assert!(!agrees(b(-0.15), b(0.15), b(2000.0), b(2500.0)));
    assert!(!agrees(b(0.1), b(0.15), b(2500.0), b(2500.0)));
    assert!(!agrees(b(f64::NAN), b(0.15), b(0.0), b(2500.0)));
    assert!(!agrees(b(0.0), b(-0.15), b(0.0), b(2500.0)));
}
