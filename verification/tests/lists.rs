use hackrf_gnss::bits::push_bits;
use hackrf_gnss::lfsr::{all_ones, chip_of, feedback, load_bits, run_mask, shift, shift_back, taps_of};
use hackrf_gnss::order::{precedes, same, sorted_distinct, sorted_names};
use hackrf_gnss::sbas::{conv_encode, crc24q};
use hackrf_gnss::text::{
    append_chars, append_text, chars_of, decimal_chars, find, has_prefix, hex_chars, is_float_text, occurs_at,
    parse_unsigned, part, read_number_after, skip_digits, split_lines, split_words, string_of, trim, trim_end,
};

fn chars(s: &str) -> Vec<char> {
    chars_of(s)
}

fn strings(v: Vec<Vec<char>>) -> Vec<String> {
    v.iter().map(|s| string_of(s)).collect()
}

#[test]
fn sorted_lists_have_no_repetitions() {
    assert_eq!(sorted_distinct(&[5, 1, 5, 3, 1]), vec![1, 3, 5]);
    let names: Vec<String> = ["b", "a", "ab", "b"].iter().map(|s| s.to_string()).collect();
    assert_eq!(strings(sorted_names(&names)), vec!["a", "ab", "b"]);
    assert!(precedes(&chars("a"), &chars("ab")) && !precedes(&chars("b"), &chars("ab")));
    assert!(same(&chars("ab"), &chars("ab")) && !same(&chars("a"), &chars("ab")));
}

#[test]
fn text_is_kept_character_by_character() {
    assert_eq!(string_of(&chars("a\u{e9}b")), "a\u{e9}b");
    let mut v = chars("a");
    append_text(&mut v, "bc");
    append_chars(&mut v, &['d']);
    assert_eq!(string_of(&v), "abcd");
    assert_eq!(part(&v, 1, 3), vec!['b', 'c']);
}

#[test]
fn words_and_lines() {
    assert_eq!(strings(split_words(&chars("  ab\tc  "))), vec!["ab", "c"]);
    assert_eq!(strings(split_lines(&chars("a\r\nb\n\nc"))), vec!["a", "b", "", "c"]);
    assert_eq!(string_of(&trim(&chars(" a b "))), "a b");
    assert_eq!(string_of(&trim_end(&chars(" a b "))), " a b");
}

#[test]
fn patterns_and_numbers() {
    let s = chars("xxPRN 22)");
    assert_eq!(find(&s, &chars("PRN")), Some(2));
    assert_eq!(find(&s, &chars("prn")), None);
    assert!(occurs_at(&s, &chars("RN"), 3) && has_prefix(&s, "xx"));
    assert_eq!(read_number_after(&s, 5, 99), Some(22));
    assert_eq!(skip_digits(&s, 6), 8);
    assert_eq!(parse_unsigned(&chars("0042"), 100), Some(42));
    assert_eq!(parse_unsigned(&chars("101"), 100), None);
    assert_eq!(parse_unsigned(&chars("4x"), 100), None);
    assert_eq!(parse_unsigned(&chars(""), 100), None);
}

#[test]
fn number_texts_are_those_a_parser_takes() {
    for t in ["1", "-1.5", ".5", "5.", "+1e-3", "inf", "-Infinity", "NaN", "", ".", "e5", "1e", "1e+", "1 ", "0x1", "1e5.0"] {
        assert_eq!(is_float_text(&chars(t)), t.parse::<f64>().is_ok(), "{t}");
    }
}

#[test]
fn numbers_in_decimal_and_hexadecimal() {
    for n in [0u64, 7, 10, 987, u64::MAX] {
        assert_eq!(string_of(&decimal_chars(n)), format!("{n}"));
    }
    assert_eq!(string_of(&hex_chars(&[0x00, 0x8D, 0xff])), "008DFF");
}

#[test]
fn check_codes() {
    let bits: Vec<u8> = (0..40).map(|i| (i % 3 == 0) as u8).collect();
    let crc = crc24q(&bits);
    let mut full = bits.clone();
    push_bits(&mut full, 24, crc as i64);
    assert_eq!(crc24q(&full), 0);
    full[11] ^= 1;
    assert_ne!(crc24q(&full), 0);
    assert_eq!(crc24q(&[1]), 0x86_4cfb);
    assert_eq!(conv_encode(&[0, 0], true, 0), vec![0, 1, 0, 1]);
    assert_ne!(conv_encode(&bits, true, 0), conv_encode(&bits, false, 0));
}

#[test]
fn registers_shift_and_feed_back() {
    let mut s = all_ones(3);
    assert_eq!(feedback(&s, &[1, 2]), 0);
    shift(&mut s, &[1, 2]);
    assert_eq!(s, vec![0, 1, 1]);
    shift_back(&mut s, &[1, 2]);
    assert_eq!(s, vec![1, 1, 1]);
    assert_eq!((chip_of(0), chip_of(1)), (1, -1));
    assert_eq!(load_bits(0b1011, 4).len(), 4);
    assert_eq!(taps_of(0b101, 3), vec![1, 3]);
    assert_eq!(run_mask(7, 1, 0b101, 3).len(), 7);
}
