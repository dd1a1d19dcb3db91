use hackrf_gnss::fusion::{
    current_gps_week, gps_source, parse_ts_read, subframe_tow, tow_to_unix, ts_read_args, ts_set_args,
    ts_set_outcome, wrap_ticks, TsFailure, TICKS_MOD,
};

#[test]
fn ticks_wrap_at_forty_bits() {
    assert_eq!(wrap_ticks(5), 5);
    assert_eq!(wrap_ticks(TICKS_MOD as i128 + 5), 5);
    assert_eq!(wrap_ticks(-1), TICKS_MOD - 1);
    assert_eq!(wrap_ticks(-(TICKS_MOD as i128)), 0);
    assert_eq!(wrap_ticks(i128::MIN), 0);
}

#[test]
fn the_reading_of_the_counter() {
    assert_eq!(parse_ts_read("hackrf\n  ts.now = 12345 ticks\n"), Some(12345));
    assert_eq!(parse_ts_read("ts.a : 1\nts.b = x\nts.c = 7"), Some(7));
    assert_eq!(parse_ts_read("ts.\nts.now = 7"), Some(7));
    assert_eq!(parse_ts_read("ts.\nts.now = 5 ticks"), Some(5));
    assert_eq!(parse_ts_read("ts.\n"), None);
    assert_eq!(parse_ts_read(""), None);
    assert_eq!(parse_ts_read("now = 7"), None);
}

#[test]
fn setting_the_counter_is_read_back() {
    assert_eq!(ts_set_outcome(true, Some("ts.\nts.now = 5 ticks")), Ok(5));
    assert_eq!(ts_set_outcome(true, Some("no such device")), Err(TsFailure::NoReading));
    assert_eq!(ts_set_outcome(true, None), Err(TsFailure::NotRun));
    assert_eq!(ts_set_outcome(false, Some("ts.now = 5 ticks")), Err(TsFailure::NotRun));
}

#[test]
fn arguments_of_the_tool() {
    assert_eq!(ts_set_args("0001", 987), vec!["-d", "0001", "--ts-set", "987"]);
    assert_eq!(ts_read_args("0001"), vec!["-d", "0001", "--ts-read", "now"]);
}

#[test]
fn weeks_and_seconds() {
    assert_eq!(tow_to_unix(0, 18), 315_964_800);
    assert_eq!(tow_to_unix(2350, 345_600), 315_964_800 + 2350 * 604_800 + 345_600 - 18);
    assert_eq!(current_gps_week(tow_to_unix(2350, 0)), 2350);
    assert_eq!(current_gps_week(tow_to_unix(2350, 0) - 1), 2349);
    assert_eq!(current_gps_week(0), 0);
}

#[test]
fn subframes_start_six_seconds_before_the_next() {
    assert_eq!(subframe_tow(1), Some(0));
    assert_eq!(subframe_tow(1000), Some(5994));
    assert_eq!((gps_source(3).as_str(), gps_source(12).as_str()), ("G03", "G12"));
}
