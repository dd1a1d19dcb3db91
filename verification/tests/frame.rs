use hackrf_gnss::iridium::frame::{parse_line, start_epoch_from_name};

fn number(text: &str) -> f64 {
    text.parse().expect("number")
}

fn start_of(name: &str) -> Option<f64> {
    start_epoch_from_name(name).map(|t| number(&t))
}

const LINE: &str = "RWA: i-1786714486.024-t1 0006737.9200 1626087311 \
                    N:34.49-100.00 I:00000000  90% 0.500 513 001100000011000011110011";

#[test]
fn parses_a_frame_line() {
    let f = parse_line(LINE).expect("should parse");
    assert_eq!(f.kind, "RWA");
    assert_eq!(number(&f.offset_ms), 6737.92);
    assert_eq!(number(&f.freq_hz), 1626087311.0);
    assert_eq!(f.confidence, 90);
    assert_eq!(f.symbols, 513);
    assert!(f.bits.starts_with("001100000011"));
}

#[test]
fn recovers_absolute_time() {
    let f = parse_line(LINE).unwrap();
    assert_eq!(f.start_epoch.as_deref().map(number), Some(1786714486.024));
    let e = number(&f.start_epoch.unwrap()) + number(&f.offset_ms) / 1000.0;
    assert!((e - (1786714486.024 + 6.73792)).abs() < 1e-6, "epoch {}", e);
}

#[test]
fn a_name_without_a_date_yields_none_rather_than_zero() {
    assert_eq!(start_epoch_from_name("i-c00001-000-t1"), None);
    assert_eq!(start_epoch_from_name("garbage"), None);
    assert_eq!(start_epoch_from_name("i-1234"), None);
}

#[test]
fn accepts_the_name_forms_the_toolkit_accepts() {
    assert_eq!(start_of("i-1786714486-t1"), Some(1786714486.0));
    assert_eq!(start_of("i-1786714486.024-t1"), Some(1786714486.024));
    assert_eq!(start_of("i-1786714486-s1"), Some(1786714486.0));
    assert_eq!(start_of("i-1786714486-t1-o+42"), Some(1786714486.0));
}

#[test]
fn ignores_comments_and_blanks() {
    assert!(parse_line("# t_start 1786714486.024 cycle 1").is_none());
    assert!(parse_line("").is_none());
    assert!(parse_line("nonsense").is_none());
}

#[test]
fn a_name_with_an_unknown_suffix_is_rejected() {
    assert_eq!(start_epoch_from_name("i-1786714486-z1"), None);
    assert_eq!(start_epoch_from_name("i-1786714486-t2"), None);
    assert_eq!(start_epoch_from_name("i-1786714486-t1x"), None);
    assert_eq!(start_epoch_from_name("i-notanumber-t1"), None);
}

#[test]
fn an_unknown_line_kind_is_ignored() {
    assert!(parse_line("IRA: i-1786714486-t1 0 0 N:0-0 I:0 0% 0 0 0101").is_none());
    assert!(parse_line("something: else entirely").is_none());
}

#[test]
fn a_line_whose_payload_has_no_bits_is_rejected() {
    assert!(parse_line(
        "RWA: i-1786714486-t1 0006737.9200 1626087311 N:34.49-100.00 I:00000000  90% 0.500 513 xyzzy"
    ).is_none());
}

#[test]
fn a_truncated_line_is_rejected_not_half_parsed() {
    assert!(parse_line("RWA: i-1786714486-t1 0006737.9200").is_none());
}

#[test]
fn a_line_cut_short_at_any_field_is_rejected() {
    let fields: Vec<&str> = LINE.split_whitespace().collect();
    for n in 1..fields.len() {
        let partial = fields[..n].join(" ");
        assert!(parse_line(&partial).is_none(),
                "a line cut after {} fields parsed: {:?}", n, partial);
    }
    assert!(parse_line(LINE).is_some());
}

#[test]
fn unparsable_numeric_fields_are_rejected() {
    for (idx, bad) in [(2usize, "notanumber"), (3, "xx"), (6, "NN%"), (8, "zz")] {
        let mut fields: Vec<String> =
            LINE.split_whitespace().map(|s| s.to_string()).collect();
        fields[idx] = bad.to_string();
        let line = fields.join(" ");
        assert!(parse_line(&line).is_none(),
                "field {} = {:?} should have been rejected", idx, bad);
    }
}

#[test]
fn an_unreadable_level_does_not_sink_the_frame() {
    let mut fields: Vec<String> =
        LINE.split_whitespace().map(|s| s.to_string()).collect();
    fields[7] = "inf".to_string();
    let f = parse_line(&fields.join(" ")).expect("frame should still parse");
    assert!(number(&f.level).is_infinite() || number(&f.level).is_nan());
    assert!(!f.bits.is_empty());
}

#[test]
fn the_level_text_is_kept() {
    let f = parse_line(LINE).unwrap();
    assert_eq!(f.level, "0.500");
    assert_eq!(f.name, "i-1786714486.024-t1");
    assert_eq!(f.bits, "001100000011000011110011");
}

#[test]
fn seconds_are_digits_with_or_without_a_fraction() {
    for name in ["i-inf-t1", "i-nan-t1", "i-1e9-t1", "i-5.-t1", "i-.5-t1", "i--5-t1", "i-+5-t1", "i--t1"] {
        assert_eq!(start_epoch_from_name(name), None, "{name}");
    }
    assert_eq!(start_epoch_from_name("i-5.25-l1").as_deref(), Some("5.25"));
}

#[test]
fn an_offset_is_a_sign_and_digits() {
    assert_eq!(start_of("i-1786714486-t1-o-7"), Some(1786714486.0));
    for name in ["i-5-t1-o", "i-5-t1-o+", "i-5-t1-o7", "i-5-t1-oops", "i-5-t1-o+7x", "i-5-o+7"] {
        assert_eq!(start_epoch_from_name(name), None, "{name}");
    }
}
