use tracking_numbers::{Luhn, Mod10, Mod37_36, Mod7, SumProduct, Validator, S10};

#[test]
fn mod7_accepts_remainder() {
    // 331881002 = 7 * 47411571 + 5
    assert!(Mod7.validate("331881002", "5"));
    assert!(!Mod7.validate("331881002", "4"));
    assert!(Mod7.validate("14", "0"));
    assert!(Mod7.validate("+15", "+1"));
    assert!(Mod7.validate("15", "01"));
}

#[test]
fn mod7_refuses_unparsable_text() {
    assert!(!Mod7.validate("15", ""));
    assert!(!Mod7.validate("15", "+"));
    assert!(!Mod7.validate("15", "x"));
    assert!(!Mod7.validate("", "0"));
    assert!(!Mod7.validate("1 5", "1"));
    assert!(!Mod7.validate("-14", "0"));
    // 2^64 does not fit in u64.
    assert!(!Mod7.validate("18446744073709551616", "2"));
    // 2^64 - 1 = 18446744073709551615, and 2^64 - 1 = 7 * 2635249153387078802 + 1.
    assert!(Mod7.validate("18446744073709551615", "1"));
}

#[test]
fn mod10_ups_letters_and_digits() {
    let ups = Mod10 { evens_multiplier: 1, odds_multiplier: 2, reverse: false };
    assert!(ups.validate("5R8939035756712", "7"));
    assert!(!ups.validate("5R8939035756712", "0"));
    assert!(!ups.validate("5R8939035756712", "seven"));
}

#[test]
fn mod10_reverse_changes_positions() {
    let forward = Mod10 { evens_multiplier: 1, odds_multiplier: 2, reverse: false };
    let backward = Mod10 { evens_multiplier: 1, odds_multiplier: 2, reverse: true };
    // A=(65-3)%10=2, B=3: forward 2*1+3*2+1*1+2*2 = 13 -> 7;
    // backward 2*1+1*2+3*1+2*2 = 11 -> 9.
    assert!(forward.validate("AB12", "7"));
    assert!(backward.validate("AB12", "9"));
    assert!(!backward.validate("AB12", "7"));
}

#[test]
fn mod10_usps_and_empty_serial() {
    let usps = Mod10 { evens_multiplier: 3, odds_multiplier: 1, reverse: false };
    assert!(usps.validate("940011120620640626078", "7"));
    assert!(usps.validate("", "0"));
}

#[test]
fn mod10_wraps_large_multipliers() {
    // 9 * 4294967295 + 9 * 4294967295 wraps modulo 2^32 to 4294967278, which
    // ends in 8; the check digit is 2.
    let big = Mod10 { evens_multiplier: u32::MAX, odds_multiplier: u32::MAX, reverse: false };
    assert!(big.validate("99", "2"));
}

#[test]
fn sum_product_fedex_express() {
    let fedex = SumProduct {
        weightings: vec![3, 1, 7, 3, 1, 7, 3, 1, 7, 3, 1],
        modulo1: 11,
        modulo2: 10,
    };
    assert!(fedex.validate("98657878885", "5"));
    assert!(!fedex.validate("98657878885", "0"));
    // Non-digits are skipped; too few digits fail.
    assert!(fedex.validate("9865-7878-885", "5"));
    assert!(!fedex.validate("9865787888", "5"));
}

#[test]
fn s10_weights() {
    // 1*8+2*6+3*4+4*2+5*3+6*5+7*9+8*7 = 204, 204 % 11 = 6, 11 - 6 = 5.
    assert!(S10.validate("12345678", "5"));
    assert!(S10.validate("RB12345678", "5"));
    assert!(!S10.validate("12345678", "4"));
    assert!(!S10.validate("1234567", "5"));
    // 11 - 0 = 11 is read as 5: 8*8 + 2*6 = 76 ... use a sum divisible by 11.
    // 00000000 sums to 0, so the check digit is 5.
    assert!(S10.validate("00000000", "5"));
    // Sum 1*8+0+0+0+0+0+0+3*7 = 29, 29 % 11 = 7, 11 - 7 = 4.
    assert!(S10.validate("10000003", "4"));
    // Sum 1*8 + 3*6 = 26... pick a sum with remainder 1: 8+... 12 = 1*6 + 3*2: 0 1 0 3 -> 6+6 = 12, 12 % 11 = 1, 11 - 1 = 10 is read as 0.
    assert!(S10.validate("01030000", "0"));
}

#[test]
fn luhn_classic_example() {
    assert!(Luhn.validate("7992739871", "3"));
    assert!(!Luhn.validate("7992739871", "4"));
    assert!(!Luhn.validate("79927a9871", "3"));
    assert!(Luhn.validate("", "0"));
}

#[test]
fn mod37_36_check_characters() {
    assert!(Mod37_36.validate("09998000020033", "T"));
    assert!(Mod37_36.validate("09998000020033", "t"));
    assert!(!Mod37_36.validate("09998000020033", "F"));
    assert!(Mod37_36.validate("0123456789ABCDEF", "5"));
    assert!(Mod37_36.validate("A", "H"));
    assert!(Mod37_36.validate("", "1"));
    assert!(!Mod37_36.validate("abc", "1"));
    assert!(!Mod37_36.validate("A", ""));
}

#[test]
fn exactly_one_check_digit_is_accepted() {
    let ups = Mod10 { evens_multiplier: 1, odds_multiplier: 2, reverse: false };
    let fedex = SumProduct {
        weightings: vec![3, 1, 7, 3, 1, 7, 3, 1, 7, 3, 1],
        modulo1: 11,
        modulo2: 10,
    };
    let digits = ["0", "1", "2", "3", "4", "5", "6", "7", "8", "9"];
    let count = |f: &dyn Fn(&str) -> bool| digits.iter().filter(|d| f(d)).count();
    assert_eq!(count(&|d| ups.validate("5R8939035756712", d)), 1);
    assert_eq!(count(&|d| fedex.validate("98657878885", d)), 1);
    assert_eq!(count(&|d| Mod7.validate("331881002", d)), 1);
    assert_eq!(count(&|d| S10.validate("12345678", d)), 1);
    assert_eq!(count(&|d| Luhn.validate("7992739871", d)), 1);
    let letters: Vec<String> = (b'0'..=b'9').chain(b'A'..=b'Z').map(|b| (b as char).to_string()).collect();
    assert_eq!(letters.iter().filter(|c| Mod37_36.validate("09998000020033", c)).count(), 1);
}

#[test]
fn luhn_rejects_every_single_digit_change() {
    let base = "7992739871";
    for pos in 0..base.len() {
        for d in b'0'..=b'9' {
            let mut changed: Vec<u8> = base.bytes().collect();
            if changed[pos] == d {
                continue;
            }
            changed[pos] = d;
            let changed = String::from_utf8(changed).unwrap();
            assert!(!Luhn.validate(&changed, "3"), "{} accepted with 3", changed);
        }
    }
}

#[test]
fn mod37_36_rejects_every_single_character_change() {
    let base = "09998000020033";
    let alphabet: Vec<u8> = (b'0'..=b'9').chain(b'A'..=b'Z').collect();
    for pos in 0..base.len() {
        for &c in &alphabet {
            let mut changed: Vec<u8> = base.bytes().collect();
            if changed[pos] == c {
                continue;
            }
            changed[pos] = c;
            let changed = String::from_utf8(changed).unwrap();
            assert!(!Mod37_36.validate(&changed, "T"), "{} accepted with T", changed);
        }
    }
}

#[test]
fn sum_product_ignores_inserted_non_digits() {
    let fedex = SumProduct {
        weightings: vec![3, 1, 7, 3, 1, 7, 3, 1, 7, 3, 1],
        modulo1: 11,
        modulo2: 10,
    };
    for seq in ["9865x7878885", " 98657878885", "98657878885 ", "9-8-6-5-7-8-7-8-8-8-5", "ABC98657878885"] {
        assert!(fedex.validate(seq, "5"), "{}", seq);
        assert!(!fedex.validate(seq, "4"), "{}", seq);
    }
    assert!(S10.validate("RB 1234-5678 GB", "5"));
    assert!(!S10.validate("RB 1234-5678 GB", "4"));
}
