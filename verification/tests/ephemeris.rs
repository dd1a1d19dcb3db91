use hackrf_gnss::gps::ephemeris::{find_prn, load_tle, load_tle_named, parse_prn};

#[test]
fn parses_prn_from_title() {
    assert_eq!(parse_prn("GPS BIIR-5  (PRN 22)"), Some(22));
    assert_eq!(parse_prn("GPS BIII-7  (PRN 01)"), Some(1));
    assert_eq!(parse_prn("SOME JUNK"), None);
}

const LINE_1: &str = "1 25544U 98067A   20194.88612269 -.00002218  00000-0 -31515-4 0  9992";
const LINE_2: &str = "2 25544  51.6461 221.2784 0001413  89.1723 280.4612 15.49507896236008";

#[test]
fn numbered_satellites_are_loaded() {
    let text = format!("A (PRN 22)  \n{LINE_1}\n{LINE_2}\n\nB\n{LINE_1}\n{LINE_2}\n C (PRN 7)\n{LINE_1}\n{LINE_2}\n");
    let sats = load_tle(&text);
    let prns: Vec<u16> = sats.iter().map(|s| s.prn).collect();
    assert_eq!(prns, vec![22, 7]);
    assert_eq!(sats[1].name, "C (PRN 7)");
    assert_eq!(sats[0].epoch_ms, 1_594_588_561_000);
    assert_eq!(find_prn(&prns, 7), Some(1));
    assert_eq!(find_prn(&prns, 8), None);
}

#[test]
fn named_satellites_need_no_number() {
    let text = format!("junk\nIRIDIUM 106\n{LINE_1}\n{LINE_2}");
    let sats = load_tle_named(&text);
    assert_eq!(sats.len(), 1);
    assert_eq!((sats[0].prn, sats[0].name.as_str()), (0, "IRIDIUM 106"));
    assert_eq!((sats[0].line1.as_str(), sats[0].line2.as_str()), (LINE_1, LINE_2));
    let e = sgp4::Elements::from_tle(None, sats[0].line1.as_bytes(), sats[0].line2.as_bytes()).expect("elements");
    let c = sgp4::Constants::from_elements(&e).expect("constants");
    let p = c.propagate(sgp4::MinutesSinceEpoch(0.0)).expect("position");
    let r = (p.position[0].powi(2) + p.position[1].powi(2) + p.position[2].powi(2)).sqrt();
    assert!((6700.0..6900.0).contains(&r), "radius {r}");
}

#[test]
fn a_wrong_checksum_drops_the_satellite() {
    let bad = LINE_1.replace("9992", "9991");
    assert!(load_tle(&format!("A (PRN 22)\n{bad}\n{LINE_2}")).is_empty());
    let cut = LINE_2.replace("236008", "23600 ");
    assert!(load_tle(&format!("A (PRN 22)\n{LINE_1}\n{cut}")).is_empty());
    assert!(load_tle(&format!("A (PRN 22)\n1 -\n{LINE_2}")).is_empty());
}
