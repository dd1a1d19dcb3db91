use hackrf_gnss::gps::l5_code::{advance, run, CODE_LEN, L5_TABLE, XB_TAPS};

fn l5_code(prn: usize, is_q5: bool) -> Vec<f32> {
    hackrf_gnss::gps::l5_code::l5_code(prn, is_q5).iter().map(|&c| c as f32).collect()
}

#[test]
fn reproduces_all_126_is_gps_705_phases() {
    let mut matched = 0;
    for prn in 1..=63usize {
        for is_q5 in [false, true] {
            let row = L5_TABLE[prn - 1];
            let adv = if is_q5 { row.1 } else { row.0 } as usize;
            let (first13, _) = run(&XB_TAPS, 13, advance(&XB_TAPS, adv));
            let got: u16 = first13.iter().enumerate().fold(0u16, |a, (i, &b)| a | ((b as u16) << i));
            let want = if is_q5 { row.3 } else { row.2 };
            if got == want {
                matched += 1;
            }
        }
    }
    assert_eq!(matched, 126, "only {matched}/126 published XB phases reproduced");
}

#[test]
fn l5_code_code_length_and_balance() {
    let c = l5_code(1, false);
    assert_eq!(c.len(), CODE_LEN);
    let ones = c.iter().filter(|&&v| v < 0.0).count() as i64;
    let imbalance = (ones - (CODE_LEN as i64 - ones)).abs();
    assert!(imbalance < 200, "L5 PRN1 imbalance {imbalance}");
}

#[test]
fn l5_code_distinct_prns_are_nearly_orthogonal() {
    let a = l5_code(1, false);
    let b = l5_code(7, false);
    let x: f32 = a.iter().zip(&b).map(|(u, v)| u * v).sum();
    assert!(x.abs() < 0.06 * CODE_LEN as f32, "PRN1xPRN7 xcorr {x}");
    let peak: f32 = a.iter().map(|v| v * v).sum();
    assert!((peak - CODE_LEN as f32).abs() < 1.0);
}

#[test]
fn i5_and_q5_are_different_phases() {
    let i5 = l5_code(1, false);
    let q5 = l5_code(1, true);
    assert_ne!(
        i5.iter().map(|&v| (v < 0.0) as u8).collect::<Vec<_>>(),
        q5.iter().map(|&v| (v < 0.0) as u8).collect::<Vec<_>>()
    );
}

#[test]
fn an_advance_starts_the_stream_later() {
    let (all, _) = run(&XB_TAPS, 60, advance(&XB_TAPS, 0));
    let (late, _) = run(&XB_TAPS, 20, advance(&XB_TAPS, 40));
    assert_eq!(&all[40..], &late[..]);
}
