use hackrf_gnss::decoder::{
    crc24, decode_altitude, decode_callsign, decode_message, decode_velocity, scan, AdsbFrame, GroundVelocity,
};

fn heading_deg(v: &GroundVelocity) -> u16 {
    let mut h = (v.east_kts as f32).atan2(v.north_kts as f32).to_degrees().round() as i32;
    if h < 0 {
        h += 360;
    }
    h as u16
}

fn decode_magnitudes(mag: &[f32], spb: usize) -> Vec<AdsbFrame> {
    let n = mag.len();
    let at = |offs: &[f64]| -> Vec<usize> { offs.iter().map(|o| (o * spb as f64).round() as usize).collect() };
    let hi = at(&[0.0, 1.0, 3.5, 4.5]);
    let lo = at(&[0.5, 1.5, 2.0, 2.5, 3.0, 4.0, 5.0, 5.5]);
    let mut sorted = mag.to_vec();
    sorted.sort_by(|a, b| a.partial_cmp(b).unwrap());
    let floor = sorted[sorted.len() / 2] * 2.5;
    let peaks: Vec<bool> = (0..n - 240 * spb)
        .map(|i| {
            let h = hi.iter().map(|&k| mag[i + k]).fold(f32::INFINITY, f32::min);
            let l = lo.iter().map(|&k| mag[i + k]).fold(f32::NEG_INFINITY, f32::max);
            h >= floor && h > l * 1.3
        })
        .collect();
    let half = spb / 2;
    let marks: Vec<bool> = (0..n)
        .map(|i| {
            if i + spb > n {
                return false;
            }
            mag[i..i + half].iter().sum::<f32>() > mag[i + half..i + spb].iter().sum::<f32>()
        })
        .collect();
    scan(&peaks, &marks, spb)
}

fn hexb(s: &str) -> Vec<u8> {
    (0..s.len()).step_by(2).map(|i| u8::from_str_radix(&s[i..i + 2], 16).unwrap()).collect()
}

#[test]
fn check_values_add_up() {
    let a = [0x8D, 0x48, 0x40, 0xD6, 0x20];
    let b = [0x11, 0x00, 0xFF, 0x7C, 0x03];
    let sum: Vec<u8> = a.iter().zip(&b).map(|(x, y)| x ^ y).collect();
    assert_eq!(crc24(&sum), crc24(&a) ^ crc24(&b));
    assert_eq!(crc24(&[0, 0, 0, 0x8D, 0x48]), crc24(&[0x8D, 0x48]));
    assert_eq!(crc24(&[1]), 0xFF_F409);
    assert!(crc24(&sum) <= 0xFF_FFFF);
}

#[test]
fn test_crc24_zero_syndrome() {
    let bytes = hexb("8D4062D558C382D690C8ACFB0295");
    assert_eq!(bytes.len(), 14);
    let rem = crc24(&bytes[..11]);
    let par = ((bytes[11] as u32) << 16) | ((bytes[12] as u32) << 8) | (bytes[13] as u32);
    assert_eq!(rem ^ par, 0);
}

#[test]
fn decodes_a_known_callsign() {
    let bytes = hexb("8D4840D6202CC371C32CE0576098");
    let cs = decode_callsign(&bytes[4..11]).expect("callsign");
    assert!(cs.chars().all(|c| c.is_ascii_alphanumeric()), "clean callsign: {cs}");
    assert!(!cs.is_empty() && cs.len() <= 8);
}

#[test]
fn decodes_altitude_and_velocity() {
    let pos = hexb("8D40621D58C382D690C8AC2863A7");
    let alt = decode_altitude(&pos[4..11]);
    assert!(alt.is_some(), "airborne position should yield an altitude");
    assert!((0..60000).contains(&alt.unwrap()));
    let vel = hexb("8D485020994409940838175B284F");
    let v = decode_velocity(&vel[4..11]);
    let (spd, hdg) = (v.map(|v| v.speed_kts()), v.map(|v| heading_deg(&v)));
    assert!(spd.is_some() && hdg.is_some(), "velocity subtype 1 decodes");
    assert!(spd.unwrap() < 1000 && hdg.unwrap() < 360);
}

#[test]
fn decodes_a_synthetic_ppm_frame_end_to_end() {
    let bytes = hexb("8D4062D558C382D690C8ACFB0295");
    let mut bits = [0u8; 112];
    for (b, slot) in bits.iter_mut().enumerate() {
        *slot = (bytes[b / 8] >> (7 - (b % 8))) & 1;
    }
    let sr = 8.0e6;
    let spb = (sr / 1e6) as usize;
    let n = 300 * spb;
    let mut mag = vec![0.6f32; n];
    let pulse = |mag: &mut [f32], at_us: f64| {
        let s = (at_us * spb as f64) as usize;
        for x in mag.iter_mut().take(s + spb / 2).skip(s) {
            *x = 9.0;
        }
    };
    for &t in &[0.0, 1.0, 3.5, 4.5] {
        pulse(&mut mag, t);
    }
    for (b, &bit) in bits.iter().enumerate() {
        let s = (8 + b) * spb;
        let (lo, hi) = if bit == 1 { (s, s + spb / 2) } else { (s + spb / 2, s + spb) };
        for x in mag.iter_mut().take(hi).skip(lo) {
            *x = 9.0;
        }
    }
    let frames = decode_magnitudes(&mag, spb);
    assert!(!frames.is_empty(), "should decode the synthetic frame");
    assert_eq!(frames[0].icao, "4062D5");
    assert_eq!(frames[0].df, 17);
}

#[test]
fn known_call_sign() {
    let bytes = hexb("8D4840D6202CC371C32CE0576098");
    let f = decode_message(&bytes).expect("message");
    assert_eq!(f.callsign.as_deref(), Some("KLM1023"));
    assert_eq!(f.icao, "4840D6");
    assert_eq!(f.payload_hex, "202CC371C32CE0");
    assert_eq!(f.msg_type, 4);
    assert_eq!(f.detail(None), "DF17 Aircraft ID / Callsign: KLM1023");
}

#[test]
fn known_altitude() {
    let f = decode_message(&hexb("8D40621D58C382D690C8AC2863A7")).expect("message");
    assert_eq!(f.altitude_ft, Some(38000));
    assert_eq!(f.detail(None), "DF17 Airborne Position (Alt: 38000 ft)");
    assert_eq!(decode_altitude(&[0, 0b0000_0001, 0b0000_0000]), Some(-1000));
    assert_eq!(decode_altitude(&[0, 0, 0]), None);
    assert_eq!(decode_altitude(&[0, 0]), None);
}

#[test]
fn known_velocity() {
    let f = decode_message(&hexb("8D485020994409940838175B284F")).expect("message");
    let v = f.velocity.expect("velocity");
    assert_eq!((v.east_kts, v.north_kts), (-8, -159));
    assert_eq!(f.speed_kts, Some(159));
    assert_eq!(heading_deg(&v), 183);
    assert_eq!(f.detail(Some(183)), "DF17 Velocity: 159 kts @ 183\u{b0}");
    assert_eq!(f.detail(None), "DF17 Mode-S Squitter [CRC-OK]");
}

#[test]
fn speeds_round_to_the_nearest_knot() {
    for (e, n, s) in [(0, 0, 0u16), (3, 4, 5), (1, 1, 1), (1, 2, 2), (-1022, 1022, 1445), (7, 0, 7)] {
        assert_eq!(GroundVelocity { east_kts: e, north_kts: n }.speed_kts(), s);
    }
}

#[test]
fn wrong_parity_or_format_is_refused() {
    let mut bytes = hexb("8D4062D558C382D690C8ACFB0295");
    assert!(decode_message(&bytes).is_some());
    bytes[13] ^= 1;
    assert!(decode_message(&bytes).is_none());
    let mut short = vec![0x8D, 1, 2, 3];
    let c = crc24(&short);
    short.extend([(c >> 16) as u8, (c >> 8) as u8, c as u8]);
    assert_eq!(crc24(&short), 0);
    assert!(decode_message(&short).is_none());
    let mut short = vec![0x58, 1, 2, 3];
    let c = crc24(&short);
    short.extend([(c >> 16) as u8, (c >> 8) as u8, c as u8]);
    assert_eq!(decode_message(&short).unwrap().df, 11);
    assert!(decode_message(&short[..6]).is_none());
}

#[test]
fn call_signs_without_letters_are_none() {
    assert_eq!(decode_callsign(&[0x20, 0, 0, 0, 0, 0, 0]), None);
    assert_eq!(decode_callsign(&[0x20, 0x04]), None);
    assert_eq!(decode_callsign(&[0x20, 0x04, 0x20, 0xf1, 0xcb, 0x38, 0x20]).as_deref(), Some("ABC123"));
}
