use hackrf_gnss::iridium::message::{Class, Ibc, Ira};
use hackrf_gnss::iridium::ppm::{
    attribution, find_by_number, median, sat_id_from_name, tally, Attribution, Fate, Tally,
};

#[test]
fn tle_titles_give_spacecraft_ids() {
    assert_eq!(sat_id_from_name("IRIDIUM 106"), Some(106));
    assert_eq!(sat_id_from_name("IRIDIUM 33"), Some(33));
    assert_eq!(sat_id_from_name("IRIDIUM 911 DEB"), Some(911));
    assert_eq!(sat_id_from_name("GPS BIIR-5  (PRN 22)"), None);
    assert_eq!(sat_id_from_name("IRIDIUM"), None);
}

#[test]
fn a_number_finds_its_title() {
    let names: Vec<String> = ["IRIDIUM", "IRIDIUM 33", "IRIDIUM 106"].iter().map(|s| s.to_string()).collect();
    assert_eq!(find_by_number(&names, 106), Some(2));
    assert_eq!(find_by_number(&names, 7), None);
}

fn ring_alert(pos_x: i32, pos_y: i32, pos_z: i32) -> Class {
    Class::RingAlert(Ira {
        sat: 51, beam: 2, pos_x, pos_y, pos_z, interval: 0, slot: 0, eip: 0, bc_sb: 0, corrected: 0,
    })
}

#[test]
fn bursts_name_their_satellite() {
    assert_eq!(attribution(&ring_alert(1500, -1000, 3)), Attribution::Position { x: 1500, y: -1000, z: 3 });
    assert_eq!(attribution(&ring_alert(1, -2, 3)), Attribution::Number(51), "a position on the ground");
    let ibc = Ibc {
        bc_type: 0, sv_id: 77, beam_id: 2, slot: 0, sv_blocking: 0, acqu_subband: 0, acqu_channels: 0, corrected: 0,
    };
    assert_eq!(attribution(&Class::Broadcast(ibc)), Attribution::Number(77));
    assert_eq!(attribution(&Class::Uplink), Attribution::Nothing);
}

#[test]
fn fates_are_counted() {
    let fates = [
        Fate::Undemodulated, Fate::Unframed, Fate::Unparsed, Fate::Unattributed, Fate::NoOrbit, Fate::BelowHorizon,
        Fate::Used,
    ];
    assert_eq!(tally(&fates), Tally { detected: 7, decoded: 4, unattributed: 2 });
    assert_eq!(tally(&[]), Tally { detected: 0, decoded: 0, unattributed: 0 });
}

fn middle(v: &[f64]) -> Option<f64> {
    let bits: Vec<u64> = v.iter().map(|x| x.to_bits()).collect();
    median(&bits).map(f64::from_bits)
}

#[test]
fn median_ignores_outliers() {
    let v = [10.0, 11.0, 12.0, 13.0, 500.0, -400.0];
    let m = middle(&v).unwrap();
    assert!((m - 12.0).abs() < 1e-9 || (m - 13.0).abs() < 1e-9, "median {m}");
    let mut v: Vec<f64> = vec![20.0; 21];
    v.push(9_999.0);
    assert!((middle(&v).unwrap() - 20.0).abs() < 1e-9);
    assert!(middle(&[]).is_none());
}
