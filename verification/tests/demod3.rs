use hackrf_gnss::iridium::demod3::{
    confidence, differential, find_frame, find_uw, frame_bit_string, gcd, SYM2BITS, UW_SYMS,
};

#[test]
fn gcd_of_two_rates() {
    assert_eq!(gcd(200000, 500000), 100000);
    assert_eq!(gcd(12, 8), 4);
    assert_eq!(gcd(7, 0), 7);
}

#[test]
fn detect_recovers_differential_symbols() {
    let ks: [u8; 40] = [
        0, 1, 3, 2, 0, 0, 1, 1, 2, 3, 3, 0, 2, 1, 0, 3, 2, 2, 1, 0, 1, 2, 3, 0, 1, 1, 3, 2, 0,
        2, 3, 1, 0, 0, 2, 3, 1, 2, 0, 1,
    ];
    let ds = differential(&ks);
    assert_eq!(ds.len(), ks.len() - 1);
    for i in 0..ds.len() {
        let want = (ks[i + 1] as i64 - ks[i] as i64).rem_euclid(4) as u8;
        assert_eq!(ds[i], want, "differential symbol {i}");
    }
    let turned: Vec<u8> = ks.iter().map(|k| (k + 3) % 4).collect();
    assert_eq!(differential(&turned), ds);
}

#[test]
fn find_frame_and_find_uw_locate_the_unique_word() {
    let hint = 30usize;
    let mut ds = vec![0u8; hint];
    ds.extend_from_slice(&UW_SYMS);
    ds.extend_from_slice(&[1, 3, 2, 0, 1, 2, 3, 0, 1, 2, 3, 0, 1, 2]);
    assert_eq!(find_uw(&ds), Some(hint));
    let (p, d, _sc) = find_frame(&ds, hint, 24, 20, 3).expect("frame");
    assert_eq!(p, hint);
    assert_eq!(d, 0, "clean unique word has zero bit errors");
}

#[test]
fn a_frame_too_damaged_is_not_found() {
    let ds = vec![1u8; 60];
    assert_eq!(find_uw(&ds), None);
    assert_eq!(find_frame(&ds, 30, 24, 20, 3), None);
}

#[test]
fn frame_bits_are_the_symbol_pairs() {
    let mut ds = UW_SYMS.to_vec();
    ds.extend((0..200).map(|i| (i % 4) as u8));
    let text = frame_bit_string(&ds, 0).expect("bits");
    let want: String = ds.iter().flat_map(|&s| SYM2BITS[s as usize]).map(|b| if b == 1 { '1' } else { '0' }).collect();
    assert!(want.starts_with(&text) && text.len() >= 24, "{text}");
    assert_eq!(frame_bit_string(&[], 0), None);
}

#[test]
fn confidence_is_a_percentage() {
    assert_eq!(confidence(0, 10), 0);
    assert_eq!(confidence(10, 10), 100);
    assert_eq!(confidence(1, 3), 33);
    assert_eq!(confidence(0, 0), 0);
}
