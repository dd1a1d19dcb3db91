use hackrf_gnss::iridium::bch::{
    gf2_remainder, gf2_remainder_bits, params, repair, syndromes, ACCH, HDR, LCW3, MESSAGING, RINGALERT,
};

#[test]
fn remainder_of_zero_is_zero() {
    assert_eq!(gf2_remainder(RINGALERT, 0), 0);
}

#[test]
fn a_multiple_of_the_generator_divides_cleanly() {
    for x in [1u32, 2, 3, 5, 17] {
        let mut prod = 0u32;
        let mut a = RINGALERT;
        let mut b = x;
        while b != 0 {
            if b & 1 == 1 {
                prod ^= a;
            }
            a <<= 1;
            b >>= 1;
        }
        assert_eq!(gf2_remainder(RINGALERT, prod), 0, "x={}", x);
    }
}

#[test]
fn a_clean_block_reports_no_errors() {
    let data = "101100111000110101101";
    let shifted: u32 = u32::from_str_radix(data, 2).unwrap() << 10;
    let rem = gf2_remainder(RINGALERT, shifted);
    let word = shifted | rem;
    let block: String = (0..31)
        .map(|i| if (word >> (30 - i)) & 1 == 1 { '1' } else { '0' })
        .collect();
    let r = repair(RINGALERT, &block);
    assert_eq!(r.errors, Some(0));
    assert_eq!(r.data, data);
}

#[test]
fn single_and_double_bit_errors_are_corrected() {
    let data = "101100111000110101101";
    let shifted: u32 = u32::from_str_radix(data, 2).unwrap() << 10;
    let word = shifted | gf2_remainder(RINGALERT, shifted);
    for flips in [vec![3usize], vec![0], vec![30], vec![5, 19]] {
        let mut w = word;
        for f in &flips {
            w ^= 1 << f;
        }
        let block: String = (0..31)
            .map(|i| if (w >> (30 - i)) & 1 == 1 { '1' } else { '0' })
            .collect();
        let r = repair(RINGALERT, &block);
        assert_eq!(r.errors, Some(flips.len() as u8), "flips {:?}", flips);
        assert_eq!(r.data, data, "flips {:?} were not corrected", flips);
    }
}

#[test]
fn every_generator_has_usable_parameters() {
    for poly in [HDR, LCW3, 465u32, MESSAGING, RINGALERT, ACCH] {
        let (bits, errs) = params(poly);
        assert!(bits >= 7 && bits <= 31, "poly {} claims {} bits", poly, bits);
        assert!(errs == 1 || errs == 2, "poly {} claims {} errors", poly, errs);
        let _ = syndromes(poly);
    }
}

#[test]
fn the_short_header_code_corrects_a_single_bit() {
    let r = repair(HDR, &"0".repeat(31));
    assert_eq!(r.errors, Some(0));
}

#[test]
fn an_uncorrectable_block_is_reported_rather_than_guessed() {
    let mut worst = 0;
    for seed in 0u32..4000 {
        let block: String = (0..31)
            .map(|i| {
                let h = seed.wrapping_mul(2654435761).rotate_left(i as u32);
                if h & 1 == 1 { '1' } else { '0' }
            })
            .collect();
        if repair(RINGALERT, &block).errors.is_none() {
            worst += 1;
        }
    }
    assert!(worst > 0, "no random block was ever judged uncorrectable");
}

#[test]
fn remainders_of_bit_strings_and_words_agree() {
    assert_eq!(gf2_remainder_bits(RINGALERT, "10110011100011010110100000000000"), gf2_remainder(RINGALERT, 0b1011_0011_1000_1101_0110_1000_0000_0000));
    assert_eq!(gf2_remainder(0b1011, 0b1101), 0b110);
}

#[test]
fn remainder_of_a_sum_is_the_sum_of_remainders() {
    let (a, b) = (0x1234_5678u32, 0x0fed_cba9u32);
    assert_eq!(gf2_remainder(ACCH, a ^ b), gf2_remainder(ACCH, a) ^ gf2_remainder(ACCH, b));
}

#[test]
fn every_single_error_is_in_the_syndrome_table() {
    let t = syndromes(RINGALERT);
    for k in 0..31 {
        let e = 1u32 << k;
        let (errors, mask) = t[&gf2_remainder(RINGALERT, e)];
        assert_eq!((errors, mask), (1, e));
    }
}
