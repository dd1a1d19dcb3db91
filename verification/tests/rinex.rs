use hackrf_gnss::beidou_d1::sow_bdt_to_gpst;
use hackrf_gnss::gps::broadcast::{
    bdt_sow, detect_ang_unit, fld, gps_sow, i0_sane, iparse_strict, jdn, vote_unit, AngUnit, F_REL,
    F_REL_GAL, HALF_TURN, I0_RAD_MAX, I0_RAD_MIN, I0_SC_MAX, I0_SC_MIN, MU_E, MU_GAL, OMEGA_E,
};
use hackrf_gnss::gps::rinex::{
    choose_records, newest_record, parse_rinex_bds_nav as bds_nav, parse_rinex_gal_nav as gal_nav, parse_rinex_gps_nav as gps_nav, read_nav, NavNumbers,
    NavRecord, NavText, Numbers, RinexParse as NavFile,
};
use std::collections::HashMap;
use std::f64::consts::PI;

/// An ephemeris in radians and seconds.
#[derive(Clone, Debug)]
struct Eph {
    sys: u8,
    prn: u8,
    toe: f64,
    toc: f64,
    week: f64,
    sqrt_a: f64,
    e: f64,
    m0: f64,
    delta_n: f64,
    omega0: f64,
    omega: f64,
    i0: f64,
    idot: f64,
    omega_dot: f64,
    cuc: f64,
    cus: f64,
    crc: f64,
    crs: f64,
    cic: f64,
    cis: f64,
    af0: f64,
    af1: f64,
    af2: f64,
    tgd: f64,
    iode: Option<u8>,
    health: Option<u8>,
    fit_h: Option<f64>,
    iodc: Option<u16>,
    rx_epoch: Option<f64>,
}

struct Parsed {
    ephs: HashMap<u8, Eph>,
    rejected: usize,
    unit: AngUnit,
}

fn number(text: &[char]) -> Option<u64> {
    text.iter().collect::<String>().parse::<f64>().ok().map(f64::to_bits)
}

fn numbers(nav: &NavText) -> NavNumbers {
    NavNumbers {
        i0: nav.i0.iter().map(|t| number(t)).collect(),
        records: nav
            .records
            .iter()
            .map(|r| Numbers {
                clock: r.clock.iter().map(|t| number(t)).collect(),
                orbit: r.orbit.iter().map(|t| number(t)).collect(),
            })
            .collect(),
    }
}

fn eph(r: &NavRecord, unit: AngUnit, sys: u8) -> Eph {
    let ang = if unit == AngUnit::Semicircles { PI } else { 1.0 };
    let x = &r.elements;
    let f = f64::from_bits;
    let toe = if sys == 1 { (f(x.toe) + 14.0).rem_euclid(604_800.0) } else { f(x.toe) };
    Eph {
        sys,
        prn: r.prn,
        toe,
        toc: r.toc as f64,
        week: f(x.week),
        sqrt_a: f(x.sqrt_a),
        e: f(x.e),
        m0: f(x.m0) * ang,
        delta_n: f(x.delta_n) * ang,
        omega0: f(x.omega0) * ang,
        omega: f(x.omega) * ang,
        i0: f(x.i0) * ang,
        idot: f(x.idot) * ang,
        omega_dot: f(x.omega_dot) * ang,
        cuc: f(x.cuc),
        cus: f(x.cus),
        crc: f(x.crc),
        crs: f(x.crs),
        cic: f(x.cic),
        cis: f(x.cis),
        af0: f(x.af0),
        af1: f(x.af1),
        af2: f(x.af2),
        tgd: f(x.tgd),
        iode: r.iode,
        health: r.health,
        fit_h: r.fit.map(f64::from_bits),
        iodc: r.iodc,
        rx_epoch: None,
    }
}

fn chosen(file: NavFile, sys: u8) -> Parsed {
    let ephs: Vec<Eph> = file.records.iter().map(|r| eph(r, file.unit, sys)).collect();
    let time = |r: &NavRecord| (f64::from_bits(r.elements.week), f64::from_bits(r.elements.toe));
    let mut in_fit = vec![false; ephs.len()];
    if let Some(k) = newest_record(&file.records) {
        let (week, toe) = time(&file.records[k]);
        for (i, r) in file.records.iter().enumerate() {
            let (w, t) = time(r);
            let age = (week - w) * 604_800.0 + (toe - t);
            in_fit[i] = ephs[i].fit_h.map_or(false, |f| (0.0..=f * 3600.0).contains(&age));
        }
    }
    let choice = choose_records(&file.records, &in_fit);
    let ephs = choice.iter().flatten().map(|&k| (ephs[k].prn, ephs[k].clone())).collect();
    Parsed { ephs, rejected: file.rejected, unit: file.unit }
}

fn parse_rinex_gps_nav(text: &str) -> Parsed {
    let nav = read_nav(text, 'G');
    chosen(gps_nav(&nav, &numbers(&nav)), 0)
}

fn parse_rinex_bds_nav(text: &str) -> Parsed {
    let nav = read_nav(text, 'C');
    chosen(bds_nav(&nav, &numbers(&nav)), 1)
}

fn parse_rinex_gal_nav(text: &str) -> Parsed {
    let nav = read_nav(text, 'E');
    chosen(gal_nav(&nav, &numbers(&nav)), 2)
}

fn parse_rinex_gps(text: &str) -> HashMap<u8, Eph> {
    parse_rinex_gps_nav(text).ephs
}

fn parse_rinex_bds(text: &str) -> HashMap<u8, Eph> {
    parse_rinex_bds_nav(text).ephs
}

const RNX_HDR: &str = "\
     3.05           NAVIGATION DATA     MIXED               RINEX VERSION / TYPE
                                                            END OF HEADER
";

fn rinex_record(prn: u8, week: f64, toe: f64, i0: &str) -> String {
    rinex_record_hf(prn, week, toe, i0, "0.000000000000D+00", "4.000000000000D+00")
}

fn rinex_record_hf(prn: u8, week: f64, toe: f64, i0: &str, health: &str, fit: &str) -> String {
    format!(
        "G{prn:02} 2026 08 20 00 00 00-1.000000000000D-04 0.000000000000D+00 0.000000000000D+00\n\
         \x20    1.000000000000D+02-5.000000000000D+00 4.000000000000D-09 3.000000000000D-01\n\
         \x20    1.000000000000D-06 4.000000000000D-03 5.000000000000D-06 5.153600000000D+03\n\
         \x20   {toe:19.12E} 1.000000000000D-08-2.500000000000D+00 2.000000000000D-08\n\
         \x20   {i0:>19} 2.000000000000D+02-5.000000000000D-01-8.000000000000D-09\n\
         \x20   -2.600000000000D-10 0.000000000000D+00{week:19.12E} 0.000000000000D+00\n\
         \x20    0.000000000000D+00{health:>19}-1.000000000000D-08 1.000000000000D+02\n\
         \x20   {toe:19.12E}{fit:>19} 0.000000000000D+00 0.000000000000D+00"
    )
}

#[test]
fn parses_a_minimal_rinex_record() {
    let txt = "\
     3.05           NAVIGATION DATA     MIXED               RINEX VERSION / TYPE
                                                            END OF HEADER
G01 2026 08 20 00 00 00-1.000000000000D-04 0.000000000000D+00 0.000000000000D+00
     1.000000000000D+02-5.000000000000D+00 4.000000000000D-09 3.000000000000D-01
     1.000000000000D-06 4.000000000000D-03 5.000000000000D-06 5.153600000000D+03
     3.456000000000D+05 1.000000000000D-08-2.500000000000D+00 2.000000000000D-08
     3.000000000000D-01 2.000000000000D+02-5.000000000000D-01-8.000000000000D-09
    -2.600000000000D-10 0.000000000000D+00 2.350000000000D+03 0.000000000000D+00
     0.000000000000D+00 0.000000000000D+00-1.000000000000D-08 1.000000000000D+02
     3.456000000000D+05 0.000000000000D+00 0.000000000000D+00 0.000000000000D+00";
    let ephs = parse_rinex_gps(txt);
    assert_eq!(ephs.len(), 1);
    let e = &ephs[&1];
    assert_eq!(e.prn, 1);
    assert!((e.sqrt_a - 5153.6).abs() < 1e-6);
    assert!((e.toe - 345600.0).abs() < 1e-6);
    assert!((e.toc - 345600.0).abs() < 1e-6, "toc {} must equal toe (GPST epochs)", e.toc);
    assert!((e.af0 - (-1.0e-4)).abs() < 1e-12);
    assert_eq!(e.iode, Some(100));
    assert_eq!(e.health, Some(0));
    assert_eq!(e.iodc, Some(100));
    assert_eq!(e.fit_h, None);
    assert_eq!(e.rx_epoch, None);
    assert!((e.m0 - 0.3 * PI).abs() < 1e-9);
}

#[test]
fn malformed_core_field_rejects_the_record() {
    let bad = rinex_record(5, 2350.0, 345600.0, "3.000000000000D-01")
        .replace("5.153600000000D+03", &" ".repeat(18));
    let r = parse_rinex_gps_nav(&format!("{RNX_HDR}{bad}"));
    assert_eq!(r.rejected, 1);
    assert!(r.ephs.is_empty(), "malformed record must not enter the map");
    let nan = rinex_record(5, 2350.0, 345600.0, "3.000000000000D-01")
        .replace("5.153600000000D+03", &format!("{:>18}", "NaN"));
    let r = parse_rinex_gps_nav(&format!("{RNX_HDR}{nan}"));
    assert_eq!(r.rejected, 1);
    assert!(r.ephs.is_empty());
}

#[test]
fn blank_optional_metadata_is_tolerated_malformed_rejects() {
    let blank_fit = rinex_record(5, 2350.0, 345600.0, "3.000000000000D-01")
        .replace("4.000000000000D+00", &" ".repeat(18));
    let r = parse_rinex_gps_nav(&format!("{RNX_HDR}{blank_fit}"));
    assert_eq!(r.rejected, 0);
    assert_eq!(r.ephs[&5].fit_h, None);
    let bad_fit = rinex_record(5, 2350.0, 345600.0, "3.000000000000D-01")
        .replace("4.000000000000D+00", &format!("{:>18}", "xyzzy"));
    let r = parse_rinex_gps_nav(&format!("{RNX_HDR}{bad_fit}"));
    assert_eq!(r.rejected, 1);
    assert!(r.ephs.is_empty());
}

#[test]
fn grey_band_i0_rejects_and_one_bad_record_cannot_flip_the_unit() {
    let good1 = rinex_record(5, 2350.0, 345600.0, "3.000000000000D-01");
    let good2 = rinex_record(8, 2350.0, 345600.0, "3.100000000000D-01");
    let bad = rinex_record(9, 2350.0, 345600.0, "5.000000000000D-01"); // 0.5: grey under both units
    let txt = format!("{RNX_HDR}{good1}\n{good2}\n{bad}");
    let r = parse_rinex_gps_nav(&txt);
    assert_eq!(r.unit, AngUnit::Semicircles);
    assert_eq!(r.rejected, 1, "only the grey-band record is rejected");
    assert!((r.ephs[&5].m0 - 0.3 * PI).abs() < 1e-9, "unit not flipped");
    assert!(r.ephs.contains_key(&8) && !r.ephs.contains_key(&9));
}

#[test]
fn contradictory_unit_content_fails_closed() {
    let sc = rinex_record(5, 2350.0, 345600.0, "3.000000000000D-01");
    let rad = rinex_record(8, 2350.0, 345600.0, "9.600000000000D-01");
    let r = parse_rinex_gps_nav(&format!("{RNX_HDR}{sc}\n{rad}"));
    assert_eq!(r.unit, AngUnit::Ambiguous);
    assert_eq!(r.rejected, 2);
    assert!(r.ephs.is_empty());
}

#[test]
fn radians_file_detects_and_converts_nothing() {
    let rad = rinex_record(5, 2350.0, 345600.0, "9.599885583587D-01"); // ~55 deg in rad
    let r = parse_rinex_gps_nav(&format!("{RNX_HDR}{rad}"));
    assert_eq!(r.unit, AngUnit::Radians);
    assert_eq!(r.rejected, 0);
    let e = &r.ephs[&5];
    assert!((e.m0 - 0.3).abs() < 1e-12, "radians pass through unscaled");
    assert!((e.i0 - 0.9599885583587).abs() < 1e-9);
}

#[test]
fn newest_issue_selection_is_week_rollover_exact() {
    let old = rinex_record(5, 2350.0, 604_000.0, "3.000000000000D-01");
    let new = rinex_record(5, 2351.0, 200.0, "3.000000000000D-01");
    let r = parse_rinex_gps_nav(&format!("{RNX_HDR}{old}\n{new}"));
    assert_eq!(r.rejected, 0);
    let e = &r.ephs[&5];
    assert_eq!(e.week, 2351.0, "the next-week issue must win");
    assert_eq!(e.toe, 200.0);
    let r = parse_rinex_gps_nav(&format!("{RNX_HDR}{new}\n{old}"));
    assert_eq!(r.ephs[&5].week, 2351.0);
}

#[test]
fn unit_vote_supermajority_resolves_a_lone_dissenter() {
    let mut txt = String::from(RNX_HDR);
    for k in 0..134u32 {
        let prn = (k % 32 + 1) as u8;
        let rec = rinex_record(prn, 2350.0, 345_600.0 + k as f64 * 1800.0, "3.000000000000D-01");
        txt.push_str(&rec);
        txt.push('\n');
    }
    txt.push_str(&rinex_record(33, 2350.0, 345_600.0, "9.600000000000D-01"));
    let r = parse_rinex_gps_nav(&txt);
    assert_eq!(r.unit, AngUnit::Semicircles, "134 vs 1: the supermajority wins");
    assert_eq!(r.rejected, 1, "the losing-unit dissenter is quarantined, not scaled");
    assert_eq!(r.ephs.len(), 32);
    assert!(!r.ephs.contains_key(&33), "the minority-unit record never enters the map");
    assert!((r.ephs[&1].m0 - 0.3 * PI).abs() < 1e-9, "the majority unit is applied");
}

#[test]
fn minority_unit_records_are_quarantined() {
    let txt = format!(
        "{RNX_HDR}{}\n{}\n{}\n{}",
        rinex_record(5, 2350.0, 345_600.0, "3.000000000000D-01"),
        rinex_record(6, 2350.0, 345_600.0, "3.100000000000D-01"),
        rinex_record(7, 2350.0, 345_600.0, "3.200000000000D-01"),
        rinex_record(8, 2350.0, 345_600.0, "9.600000000000D-01"),
    );
    let r = parse_rinex_gps_nav(&txt);
    assert_eq!(r.unit, AngUnit::Semicircles);
    assert_eq!(r.rejected, 1, "the rad-band record lost the vote");
    assert!(!r.ephs.contains_key(&8) && r.ephs.len() == 3);
    let txt = format!(
        "{RNX_HDR}{}\n{}\n{}\n{}",
        rinex_record(5, 2350.0, 345_600.0, "9.500000000000D-01"),
        rinex_record(6, 2350.0, 345_600.0, "9.600000000000D-01"),
        rinex_record(7, 2350.0, 345_600.0, "9.700000000000D-01"),
        rinex_record(8, 2350.0, 345_600.0, "3.000000000000D-01"),
    );
    let r = parse_rinex_gps_nav(&txt);
    assert_eq!(r.unit, AngUnit::Radians);
    assert_eq!(r.rejected, 1, "the sc-band record lost the vote");
    assert!(!r.ephs.contains_key(&8) && r.ephs.len() == 3);
    assert!((r.ephs[&5].m0 - 0.3).abs() < 1e-12, "radians pass through unscaled");
    let txt = format!(
        "{RNX_HDR}{}\n{}",
        rinex_record(5, 2350.0, 345_600.0, "9.500000000000D-01"),
        rinex_record(9, 2350.0, 345_600.0, "1.000000000000D-01"),
    );
    let r = parse_rinex_gps_nav(&txt);
    assert_eq!(r.unit, AngUnit::Radians);
    assert_eq!(r.rejected, 0);
    assert!(r.ephs.contains_key(&9));
    let txt = format!(
        "{RNX_HDR}{}\n{}",
        rinex_record(5, 2350.0, 345_600.0, "3.000000000000D-01"),
        rinex_record(9, 2350.0, 345_600.0, "1.000000000000D-01"),
    );
    let r = parse_rinex_gps_nav(&txt);
    assert_eq!(r.unit, AngUnit::Semicircles);
    assert_eq!(r.rejected, 0);
    assert!(r.ephs.contains_key(&9));
}

#[test]
fn unit_vote_near_even_split_still_fails_closed() {
    let mut txt = String::from(RNX_HDR);
    for (k, i0) in ["3.000000000000D-01", "3.100000000000D-01", "3.200000000000D-01",
        "9.500000000000D-01", "9.600000000000D-01"]
        .iter()
        .enumerate()
    {
        txt.push_str(&rinex_record(k as u8 + 5, 2350.0, 345_600.0, i0));
        txt.push('\n');
    }
    let r = parse_rinex_gps_nav(&txt);
    assert_eq!(r.unit, AngUnit::Ambiguous, "a 3:2 split has no supermajority");
    assert_eq!(r.rejected, 5);
    assert!(r.ephs.is_empty());
}

#[test]
fn unhealthy_records_never_win_selection() {
    let healthy_old =
        rinex_record_hf(5, 2350.0, 345_600.0, "3.000000000000D-01", "0.000000000000D+00", "4.000000000000D+00");
    let unhealthy_new =
        rinex_record_hf(5, 2350.0, 349_200.0, "3.000000000000D-01", "1.000000000000D+00", "4.000000000000D+00");
    let r = parse_rinex_gps_nav(&format!("{RNX_HDR}{healthy_old}\n{unhealthy_new}"));
    assert_eq!(r.rejected, 1, "the unhealthy record is hard-excluded");
    assert_eq!(r.ephs[&5].toe, 345_600.0, "the healthy older record wins");
    let r = parse_rinex_gps_nav(&format!("{RNX_HDR}{unhealthy_new}"));
    assert_eq!(r.rejected, 1);
    assert!(r.ephs.get(&5).is_none(), "an unhealthy-only PRN selects nothing");
    let blank_health =
        rinex_record_hf(7, 2350.0, 345_600.0, "3.000000000000D-01", "", "4.000000000000D+00");
    let r = parse_rinex_gps_nav(&format!("{RNX_HDR}{blank_health}"));
    assert_eq!(r.rejected, 0);
    assert_eq!(r.ephs[&7].health, None);
}

const GAL_E02: &str = "\
E02 2026 09 01 20 00 00 6.600067717955e-05 2.685851541173e-12 0.000000000000e+00
     2.700000000000e+01 1.567812500000e+02 3.000124967247e-09 2.036137310846e+00
     7.089227437973e-06 3.099278546870e-04 1.248344779015e-05 5.440630514145e+03
     2.448000000000e+05-3.911554813385e-08-2.069042130333e+00-2.793967723846e-08
     9.611374355521e-01 7.159375000000e+01 4.523971024409e-02-5.452012812503e-09
    -2.857261873569e-11 5.160000000000e+02 2.434000000000e+03 0.000000000000e+00
     3.120000000000e+00 0.000000000000e+00-3.026798367500e-09-3.958120942116e-09
     2.454640000000e+05                                                         ";

#[test]
fn parse_rinex_gal_pins_the_fixture_record() {
    let r = parse_rinex_gal_nav(&format!("{RNX_HDR}{GAL_E02}"));
    assert_eq!(r.rejected, 0, "live E02 record must parse clean");
    assert_eq!(r.unit, AngUnit::Radians, "live E records are radians");
    let e = &r.ephs[&2];
    assert_eq!(e.sys, 2);
    assert_eq!(e.prn, 2);
    assert_eq!(e.toc, 244_800.0, "GAL epochs are GPST-frame SOW");
    assert_eq!(e.toe, 244_800.0);
    assert_eq!(e.week, 2434.0, "continuous GPS-aligned GAL week");
    assert_eq!(e.af0, 6.600067717955e-05);
    assert_eq!(e.af1, 2.685851541173e-12);
    assert_eq!(e.af2, 0.0);
    assert_eq!(e.iodc, Some(27), "IODnav rides the 16-bit iodc slot");
    assert_eq!(e.iode, None);
    assert_eq!(e.crs, 156.78125);
    assert_eq!(e.delta_n, 3.000124967247e-09);
    assert_eq!(e.m0, 2.036137310846);
    assert_eq!(e.cuc, 7.089227437973e-06);
    assert_eq!(e.e, 3.099278546870e-04);
    assert_eq!(e.cus, 1.248344779015e-05);
    assert_eq!(e.sqrt_a, 5440.630514145);
    assert_eq!(e.cic, -3.911554813385e-08);
    assert_eq!(e.omega0, -2.069042130333);
    assert_eq!(e.cis, -2.793967723846e-08);
    assert_eq!(e.i0, 0.9611374355521);
    assert_eq!(e.crc, 71.59375);
    assert_eq!(e.omega, 4.523971024409e-02);
    assert_eq!(e.omega_dot, -5.452012812503e-09);
    assert_eq!(e.idot, -2.857261873569e-11);
    assert_eq!(e.health, Some(0));
    assert_eq!(e.tgd, -3.958120942116e-09, "tgd slot = BGD(E1,E5b)");
    assert_eq!(e.fit_h, None);
    assert_eq!(e.rx_epoch, None);
}

#[test]
fn gal_constants_differ_from_gps_where_the_icd_says() {
    assert_eq!(MU_GAL as f64, 3.986004418e14);
    assert_ne!(MU_GAL, MU_E, "GAL mu is the BDS value, not GPS");
    assert_eq!(F_REL_GAL as f64 / 1e19, -4.442807309e-10);
    assert_ne!(F_REL_GAL, F_REL);
    assert_eq!(OMEGA_E as f64 / 1e15, 7.2921151467e-5);
}

#[test]
fn fnav_twin_records_are_skipped_not_rejected() {
    let fnav = GAL_E02.replace("5.160000000000e+02", "2.580000000000e+02");
    let r = parse_rinex_gal_nav(&format!("{RNX_HDR}{fnav}"));
    assert!(r.ephs.is_empty(), "F/NAV clock must never range E1");
    assert_eq!(r.rejected, 0, "the twin stream is expected, not a defect");
    let both = format!("{RNX_HDR}{fnav}\n{GAL_E02}");
    let r = parse_rinex_gal_nav(&both);
    assert_eq!(r.ephs.len(), 1);
    assert_eq!(r.ephs[&2].tgd, -3.958120942116e-09, "I/NAV BGD slot");
    for ds in ["5.130000000000e+02", "5.170000000000e+02"] {
        let rec = GAL_E02.replace("5.160000000000e+02", ds);
        let r = parse_rinex_gal_nav(&format!("{RNX_HDR}{rec}"));
        assert_eq!(r.ephs.len(), 1, "ds {ds} is I/NAV");
    }
    let bad = GAL_E02.replace("5.160000000000e+02", &" ".repeat(19));
    let r = parse_rinex_gal_nav(&format!("{RNX_HDR}{bad}"));
    assert!(r.ephs.is_empty());
    assert_eq!(r.rejected, 1);
}

#[test]
fn gal_health_and_sisa_gates_fail_closed() {
    let sick = GAL_E02
        .replace("3.120000000000e+00 0.000000000000e+00", "3.120000000000e+00 1.000000000000e+00");
    let r = parse_rinex_gal_nav(&format!("{RNX_HDR}{sick}"));
    assert!(r.ephs.is_empty(), "nonzero E1-B health bits must never range");
    assert_eq!(r.rejected, 1);
    let eom = GAL_E02
        .replace("3.120000000000e+00 0.000000000000e+00", "3.120000000000e+00 4.000000000000e+00");
    let r = parse_rinex_gal_nav(&format!("{RNX_HDR}{eom}"));
    assert!(r.ephs.is_empty());
    let e5a = GAL_E02
        .replace("3.120000000000e+00 0.000000000000e+00", "3.120000000000e+00 8.000000000000e+00");
    let r = parse_rinex_gal_nav(&format!("{RNX_HDR}{e5a}"));
    assert_eq!(r.ephs.len(), 1, "E5a health must not gate E1-B");
    assert_eq!(r.ephs[&2].health, Some(0), "stored health is the E1-B bits");
    let napa = GAL_E02.replace(" 3.120000000000e+00", "-1.000000000000e+00");
    let r = parse_rinex_gal_nav(&format!("{RNX_HDR}{napa}"));
    assert!(r.ephs.is_empty(), "NAPA must never range");
    assert_eq!(r.rejected, 1);
    let big = GAL_E02.replace(" 3.120000000000e+00", " 7.000000000000e+00");
    let r = parse_rinex_gal_nav(&format!("{RNX_HDR}{big}"));
    assert!(r.ephs.is_empty());
}

#[test]
fn gal_newest_issue_selection_is_week_rollover_exact() {
    let old = GAL_E02
        .replace("2.448000000000e+05-3.911554813385e-08", "6.040000000000e+05-3.911554813385e-08");
    let new = GAL_E02
        .replace("2.448000000000e+05-3.911554813385e-08", "2.000000000000e+02-3.911554813385e-08")
        .replace("2.434000000000e+03", "2.435000000000e+03");
    for order in [format!("{old}\n{new}"), format!("{new}\n{old}")] {
        let r = parse_rinex_gal_nav(&format!("{RNX_HDR}{order}"));
        assert_eq!(r.rejected, 0);
        let e = &r.ephs[&2];
        assert_eq!(e.week, 2435.0, "the next-week issue must win");
        assert_eq!(e.toe, 200.0);
    }
}

#[test]
fn fit_window_preference_picks_the_in_fit_record() {
    let old_long =
        rinex_record_hf(5, 2350.0, 345_600.0, "3.000000000000D-01", "0.000000000000D+00", "6.000000000000D+00");
    let new_short =
        rinex_record_hf(5, 2350.0, 349_200.0, "3.000000000000D-01", "0.000000000000D+00", "4.000000000000D+00");
    let clock_ref = rinex_record(6, 2350.0, 363_601.0, "3.100000000000D-01");
    for order in [&format!("{new_short}\n{old_long}"), &format!("{old_long}\n{new_short}")] {
        let r = parse_rinex_gps_nav(&format!("{RNX_HDR}{order}\n{clock_ref}"));
        assert_eq!(r.rejected, 0);
        assert_eq!(r.ephs[&5].toe, 345_600.0, "in-fit beats newer out-of-fit");
    }
    let r = parse_rinex_gps_nav(&format!("{RNX_HDR}{new_short}\n{clock_ref}"));
    assert_eq!(r.ephs[&5].toe, 349_200.0, "out-of-fit sole candidate stays selected");
}

fn bds_rinex_record(prn: u8, week: f64, toe: f64, i0: &str) -> String {
    format!(
        "C{prn:02} 2026 08 20 00 00 00-1.000000000000D-04 0.000000000000D+00 0.000000000000D+00\n\
         \x20    1.000000000000D+02-5.000000000000D+00 4.000000000000D-09 3.000000000000D-01\n\
         \x20    1.000000000000D-06 4.000000000000D-03 5.000000000000D-06 5.283000000000D+03\n\
         \x20   {toe:19.12E} 1.000000000000D-08-2.500000000000D+00 2.000000000000D-08\n\
         \x20   {i0:>19} 2.000000000000D+02-5.000000000000D-01-8.000000000000D-09\n\
         \x20   -2.600000000000D-10                  {week:19.12E}\n\
         \x20    2.000000000000D+00 0.000000000000D+00 4.499999928242D-09 4.500000000000D-09\n\
         \x20   {toe:19.12E} 1.000000000000D+00"
    )
}

#[test]
fn parses_a_minimal_bds_rinex_record() {
    let txt = "\
     3.05           NAVIGATION DATA     MIXED               RINEX VERSION / TYPE
                                                            END OF HEADER
C22 2026 08 20 00 00 00-1.000000000000D-04 0.000000000000D+00 0.000000000000D+00
     1.000000000000D+02-5.000000000000D+00 4.000000000000D-09 3.000000000000D-01
     1.000000000000D-06 4.000000000000D-03 5.000000000000D-06 5.283000000000D+03
     3.456000000000D+05 1.000000000000D-08-2.500000000000D+00 2.000000000000D-08
     3.000000000000D-01 2.000000000000D+02-5.000000000000D-01-8.000000000000D-09
    -2.600000000000D-10 0.000000000000D+00 9.000000000000D+02 0.000000000000D+00
     0.000000000000D+00 0.000000000000D+00-1.000000000000D-08 1.000000000000D+02
     3.456000000000D+05 0.000000000000D+00 0.000000000000D+00 0.000000000000D+00";
    let ephs = parse_rinex_bds(txt);
    assert_eq!(ephs.len(), 1);
    let e = &ephs[&22];
    assert_eq!(e.prn, 22);
    assert_eq!(e.sys, 1);
    assert_eq!(e.health, Some(0));
    assert_eq!(e.iode, None);
    assert_eq!(e.iodc, None);
    assert_eq!(e.fit_h, None);
    assert_eq!(e.rx_epoch, None);
    assert!((e.sqrt_a - 5283.0).abs() < 1e-6);
    assert!((e.toe - sow_bdt_to_gpst(345600) as f64).abs() < 1e-6, "toe {}", e.toe);
    assert!((e.af0 - (-1.0e-4)).abs() < 1e-12);
    assert!((e.m0 - 0.3 * std::f64::consts::PI).abs() < 1e-9);
}

#[test]
fn bds_malformed_core_field_rejects_the_record() {
    let bad = bds_rinex_record(22, 1077.0, 345600.0, "3.000000000000D-01")
        .replace("5.283000000000D+03", &" ".repeat(18));
    let r = parse_rinex_bds_nav(&format!("{RNX_HDR}{bad}"));
    assert_eq!(r.rejected, 1);
    assert!(r.ephs.is_empty(), "malformed record must not enter the map");
}

#[test]
fn bds_contradictory_unit_content_fails_closed() {
    let sc = bds_rinex_record(22, 1077.0, 345600.0, "3.000000000000D-01");
    let rad = bds_rinex_record(23, 1077.0, 345600.0, "9.600000000000D-01");
    let r = parse_rinex_bds_nav(&format!("{RNX_HDR}{sc}\n{rad}"));
    assert_eq!(r.unit, AngUnit::Ambiguous);
    assert_eq!(r.rejected, 2);
    assert!(r.ephs.is_empty());
}

#[test]
fn bds_newest_issue_selection_is_week_rollover_exact() {
    let old = bds_rinex_record(22, 1077.0, 604_000.0, "3.000000000000D-01");
    let new = bds_rinex_record(22, 1078.0, 200.0, "3.000000000000D-01");
    let r = parse_rinex_bds_nav(&format!("{RNX_HDR}{old}\n{new}"));
    assert_eq!(r.rejected, 0);
    assert_eq!(r.ephs[&22].week, 1078.0, "the next-week issue must win");
}

#[test]
fn bds_high_inclination_igso_is_accepted() {
    let igso = bds_rinex_record(9, 1077.0, 345600.0, "1.052303169428D+00");
    let r = parse_rinex_bds_nav(&format!("{RNX_HDR}{igso}"));
    assert_eq!(r.unit, AngUnit::Radians);
    assert_eq!(r.rejected, 0);
    assert!((r.ephs[&9].i0 - 1.052303169428).abs() < 1e-12);
}

#[test]
fn bands_are_the_doubles_they_are_named_for() {
    assert_eq!(I0_SC_MIN, 0.25f64.to_bits());
    assert_eq!(I0_SC_MAX, 0.36f64.to_bits());
    assert_eq!(I0_RAD_MIN, 0.85f64.to_bits());
    assert_eq!(I0_RAD_MAX, 1.10f64.to_bits());
    assert_eq!(HALF_TURN, PI.to_bits());
}

#[test]
fn inclinations_fit_one_unit() {
    for (i0, sc, rad) in [
        (-0.1, false, false),
        (-0.0, true, true),
        (0.1, true, true),
        (0.25, true, false),
        (0.30, true, false),
        (0.36, true, false),
        (0.3600001, false, false),
        (0.84, false, false),
        (0.85, false, true),
        (1.0, false, true),
        (3.0, false, true),
        (3.2, false, false),
    ] {
        let b = f64::to_bits(i0);
        assert_eq!(i0_sane(b, AngUnit::Semicircles), sc, "{i0}");
        assert_eq!(i0_sane(b, AngUnit::Radians), rad, "{i0}");
        assert!(!i0_sane(b, AngUnit::Ambiguous));
    }
}

#[test]
fn votes_need_two_thirds() {
    assert_eq!(vote_unit(0, 0), AngUnit::Radians);
    assert_eq!(vote_unit(2, 1), AngUnit::Radians);
    assert_eq!(vote_unit(1, 2), AngUnit::Semicircles);
    assert_eq!(vote_unit(3, 2), AngUnit::Ambiguous);
    assert_eq!(vote_unit(2, 2), AngUnit::Ambiguous);
    assert_eq!(AngUnit::default(), AngUnit::Radians);
    let fields = [Some(0.96f64.to_bits()), Some(f64::NAN.to_bits()), None, Some((-0.9f64).to_bits())];
    assert_eq!(detect_ang_unit(&fields), AngUnit::Radians);
    assert_eq!(detect_ang_unit(&[Some(0.36f64.to_bits())]), AngUnit::Semicircles);
}

#[test]
fn the_last_seconds_of_a_beidou_week_are_its_newest() {
    let early = bds_rinex_record(22, 1077.0, 597_600.0, "3.000000000000D-01");
    let late = bds_rinex_record(22, 1077.0, 604_795.0, "3.000000000000D-01");
    for records in [[&early, &late], [&late, &early]] {
        let text = format!("{RNX_HDR}{}\n{}", records[0], records[1]);
        let r = parse_rinex_bds_nav(&text);
        assert_eq!(r.rejected, 0);
        assert!((r.ephs[&22].toe - 9.0).abs() < 1e-9);
    }
}

#[test]
fn unhealthy_beidou_records_are_excluded() {
    let well = bds_rinex_record(22, 1077.0, 345_600.0, "3.000000000000D-01");
    let ill = bds_rinex_record(22, 1077.0, 349_200.0, "3.000000000000D-01")
        .replace("2.000000000000D+00 0.000000000000D+00", "2.000000000000D+00 1.000000000000D+00");
    let r = parse_rinex_bds_nav(&format!("{RNX_HDR}{ill}"));
    assert_eq!((r.ephs.len(), r.rejected), (0, 1));
    let r = parse_rinex_bds_nav(&format!("{RNX_HDR}{well}\n{ill}"));
    assert_eq!((r.rejected, r.ephs[&22].health, r.ephs[&22].toe), (1, Some(0), 345_614.0));
    let blank = ill.replace("2.000000000000D+00 1.000000000000D+00", "2.000000000000D+00                   ");
    let r = parse_rinex_bds_nav(&format!("{RNX_HDR}{blank}"));
    assert_eq!((r.rejected, r.ephs[&22].health), (0, None));
}

#[test]
fn the_order_of_records_does_not_matter() {
    let recs = [
        rinex_record_hf(5, 2350.0, 345_600.0, "3.000000000000D-01", "0.000000000000D+00", "4.000000000000D+00"),
        rinex_record_hf(5, 2350.0, 360_000.0, "3.000000000000D-01", "0.000000000000D+00", "4.000000000000D+00"),
        rinex_record_hf(7, 2349.0, 600_000.0, "3.000000000000D-01", "0.000000000000D+00", "4.000000000000D+00"),
        rinex_record_hf(7, 2350.0, 352_800.0, "3.000000000000D-01", "0.000000000000D+00", "4.000000000000D+00"),
    ];
    for order in [[0, 1, 2, 3], [3, 2, 1, 0], [1, 3, 0, 2]] {
        let text = order.iter().map(|&k| recs[k].clone()).collect::<Vec<_>>().join("\n");
        let r = parse_rinex_gps_nav(&format!("{RNX_HDR}{text}"));
        assert_eq!((r.rejected, r.ephs.len()), (0, 2));
        assert_eq!((r.ephs[&5].toe, r.ephs[&7].toe), (360_000.0, 352_800.0));
    }
}

#[test]
fn bds_geo_records_carry_no_unit_evidence() {
    let geo = bds_rinex_record(1, 1077.0, 345600.0, "2.000000000000D-02");
    let r = parse_rinex_bds_nav(&format!("{RNX_HDR}{geo}"));
    assert_eq!((r.unit, r.rejected), (AngUnit::Radians, 0));
    assert!((r.ephs[&1].i0 - 0.02).abs() < 1e-12);
    let grey = bds_rinex_record(2, 1077.0, 345600.0, "5.000000000000D-01");
    let r = parse_rinex_bds_nav(&format!("{RNX_HDR}{grey}"));
    assert_eq!(r.rejected, 1);
    assert!(r.ephs.is_empty());
}

#[test]
fn columns_are_counted_in_bytes() {
    let plain = bds_rinex_record(22, 1077.0, 345_600.0, "3.000000000000D-01");
    let marked = plain.replacen("-2.600000000000D-10  ", "-2.600000000000D-10\u{e9}", 1);
    assert_ne!(plain, marked);
    let r = parse_rinex_bds_nav(&format!("{RNX_HDR}{marked}"));
    assert_eq!((r.rejected, r.ephs[&22].week), (0, 1077.0));
    assert_eq!(fld(&['a', '\u{e9}', 'b', 'c'], 1, 4), ['\u{e9}', 'b']);
    assert_eq!(fld(&['a', '\u{e9}', 'b', 'c'], 3, 9), ['b', 'c']);
    assert!(fld(&['a', '\u{e9}'], 3, 9).is_empty());
}

#[test]
fn dates_count_days() {
    assert_eq!(jdn(2000, 1, 1), 2_451_545);
    assert_eq!(jdn(2024, 3, 1) - jdn(2024, 2, 28), 2);
    assert_eq!(jdn(2100, 3, 1) - jdn(2100, 2, 28), 1);
    assert_eq!(gps_sow(1980, 1, 6, 0, 0, 0), 0);
    assert_eq!(gps_sow(2026, 8, 20, 0, 0, 0), 345_600);
    assert_eq!(gps_sow(1980, 1, 5, 23, 59, 59), 604_799);
    assert_eq!(bdt_sow(2006, 1, 1, 0, 0, 10), 10);
}

#[test]
fn integers_are_read_strictly() {
    let read = |s: &str| iparse_strict(&s.chars().collect::<Vec<char>>());
    assert_eq!(read(" 07 "), Some(7));
    assert_eq!(read("-12"), Some(-12));
    assert_eq!(read("+5"), Some(5));
    assert_eq!(read(""), None);
    assert_eq!(read("1 2"), None);
    assert_eq!(read("1.0"), None);
}

#[test]
fn a_bad_head_rejects_the_record() {
    for (from, to) in [("G05", "Gxx"), ("2026 08", "2026 0x"), (" 00 00 00-1", " 00 00 zz-1")] {
        let bad = rinex_record(5, 2350.0, 345600.0, "3.000000000000D-01").replace(from, to);
        let r = parse_rinex_gps_nav(&format!("{RNX_HDR}{bad}"));
        assert_eq!((r.rejected, r.ephs.len()), (1, 0), "{to}");
    }
}

#[test]
fn fields_in_range_are_cut_to_whole_numbers() {
    let rec = |health: &str| rinex_record_hf(5, 2350.0, 345_600.0, "3.000000000000D-01", health, "4.000000000000D+00");
    for (health, used) in [("6.300000000000D+01", false), ("9.900000000000D-01", true), ("-1.000000000000D+00", false)] {
        let r = parse_rinex_gps_nav(&format!("{RNX_HDR}{}", rec(health)));
        assert_eq!(r.ephs.len(), used as usize, "{health}");
    }
}

#[test]
fn an_unfinished_record_is_left_out() {
    let rec = rinex_record(5, 2350.0, 345600.0, "3.000000000000D-01");
    let cut: Vec<&str> = rec.lines().take(7).collect();
    let r = parse_rinex_gps_nav(&format!("{RNX_HDR}{}", cut.join("\n")));
    assert_eq!((r.rejected, r.ephs.len()), (0, 0));
    assert!(parse_rinex_gps_nav(&rec).ephs.is_empty(), "no header");
}
