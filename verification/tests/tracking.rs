use tracking_numbers::{
    track, AdditionalLookup, AdditionalValidation, Checksum, Courier, LookupEntry, PatternSource,
    TrackingNumber, Validation,
};

fn lookup(matches: &str) -> LookupEntry {
    LookupEntry { matches: Some(matches.to_string()), matches_regex: None }
}

fn kind(
    name: &str,
    pattern: &[&str],
    url: Option<&str>,
    checksum: Option<Checksum>,
    additional: Option<AdditionalValidation>,
    lookups: Vec<AdditionalLookup>,
) -> TrackingNumber {
    let source = if pattern.len() == 1 {
        PatternSource::Single(pattern[0].to_string())
    } else {
        PatternSource::Multi(pattern.iter().map(|p| p.to_string()).collect())
    };
    TrackingNumber::new(
        name.to_string(),
        &source,
        url.map(|u| u.to_string()),
        Validation { checksum, serial_number_format: None, additional },
        lookups,
    )
    .expect("pattern compiles")
}

fn mod10(evens: u32, odds: u32) -> Option<Checksum> {
    Some(Checksum::Mod10 { evens_multiplier: evens, odds_multiplier: odds, reverse: false })
}

/// Couriers in the order in which their definitions are loaded.
fn couriers() -> Vec<Courier> {
    vec![
        Courier {
            name: "Amazon".to_string(),
            code: "amazon".to_string(),
            tracking_numbers: vec![kind(
                "Amazon Logistics",
                &["\\s*T\\s*B\\s*A\\s*(?<SerialNumber>([0-9]\\s*){12})"],
                Some("https://track.amazon.com/tracking/%s"),
                None,
                None,
                vec![],
            )],
        },
        Courier {
            name: "Canada Post".to_string(),
            code: "canada_post".to_string(),
            tracking_numbers: vec![kind(
                "Canada Post (16)",
                &["\\s*(?<SerialNumber>([0-9]\\s*){15})(?<CheckDigit>[0-9]\\s*)"],
                Some("https://www.canadapost-postescanada.ca/track-reperage/en#/search?searchFor=%s"),
                mod10(3, 1),
                None,
                vec![],
            )],
        },
        Courier {
            name: "DHL".to_string(),
            code: "dhl".to_string(),
            tracking_numbers: vec![
                kind(
                    "DHL Express",
                    &["\\s*(?<SerialNumber>([0-9]\\s*){9})(?<CheckDigit>[0-9]\\s*)"],
                    Some("https://www.dhl.com/en/express/tracking.html?AWB=%s&brand=DHL"),
                    Some(Checksum::Mod7),
                    None,
                    vec![],
                ),
                kind(
                    "DHL E-Commerce",
                    &["\\s*G\\s*M\\s*(?<SerialNumber>([0-9]\\s*){16})"],
                    Some("https://webtrack.dhlglobalmail.com/?trackingnumber=%s"),
                    None,
                    None,
                    vec![],
                ),
            ],
        },
        Courier {
            name: "FedEx".to_string(),
            code: "fedex".to_string(),
            tracking_numbers: vec![
                kind(
                    "FedEx Express (12)",
                    &["\\s*(?<SerialNumber>([0-9]\\s*){11})(?<CheckDigit>[0-9]\\s*)"],
                    Some("https://www.fedex.com/fedextrack/?tracknumbers=%s"),
                    Some(Checksum::SumProduct {
                        weightings: vec![3, 1, 7, 3, 1, 7, 3, 1, 7, 3, 1],
                        modulo1: 11,
                        modulo2: 10,
                    }),
                    None,
                    vec![],
                ),
                kind(
                    "FedEx Ground",
                    &["\\s*(?<SerialNumber>([0-9]\\s*){14})(?<CheckDigit>[0-9]\\s*)"],
                    Some("https://www.fedex.com/fedextrack/?tracknumbers=%s"),
                    mod10(1, 3),
                    None,
                    vec![],
                ),
            ],
        },
        Courier {
            name: "UPS".to_string(),
            code: "ups".to_string(),
            tracking_numbers: vec![kind(
                "UPS",
                &[
                    "\\s*1\\s*Z\\s*(?<SerialNumber>",
                    "(?<ShipperId>(?:[A-Z0-9]\\s*){6})",
                    "(?<ServiceType>(?:[A-Z0-9]\\s*){2})",
                    "(?<PackageId>(?:[A-Z0-9]\\s*){7})",
                    ")",
                    "(?<CheckDigit>[A-Z0-9]\\s*)",
                ],
                Some("https://www.ups.com/track?tracknum=%s"),
                mod10(1, 2),
                Some(AdditionalValidation { exists: Some(vec!["Service Type".to_string()]) }),
                vec![AdditionalLookup {
                    name: "Service Type".to_string(),
                    regex_group_name: "ServiceType".to_string(),
                    lookup: vec![
                        lookup("01"),
                        lookup("02"),
                        lookup("03"),
                        lookup("12"),
                        lookup("13"),
                        LookupEntry { matches: None, matches_regex: Some("^[A-Z][0-9]$".to_string()) },
                    ],
                }],
            )],
        },
        Courier {
            name: "United States Postal Service".to_string(),
            code: "usps".to_string(),
            tracking_numbers: vec![
                kind(
                    "USPS 20",
                    &["\\s*(?<SerialNumber>([0-9]\\s*){19})(?<CheckDigit>[0-9]\\s*)"],
                    Some("https://tools.usps.com/go/TrackConfirmAction?tLabels=%s"),
                    mod10(3, 1),
                    None,
                    vec![],
                ),
                kind(
                    "USPS 22",
                    &[
                        "\\s*(?<SerialNumber>",
                        "9\\s*[1-5]\\s*",
                        "(?:[0-9]\\s*){19}",
                        ")",
                        "(?<CheckDigit>[0-9]\\s*)",
                    ],
                    Some("https://tools.usps.com/go/TrackConfirmAction?tLabels=%s"),
                    mod10(3, 1),
                    None,
                    vec![],
                ),
            ],
        },
    ]
}

#[test]
fn test_tracking_url() {
    let couriers = couriers();
    // Test with a UPS tracking number
    let result = track(&couriers, "1Z5R89390357567127");
    assert!(result.is_some(), "Should find UPS tracking number");

    if let Some(tracking) = result {
        assert!(tracking.tracking_url.contains("1Z5R89390357567127"),
                "URL should contain the tracking number");
        assert!(!tracking.tracking_url.contains("%s"),
                "URL should not contain the placeholder");
        println!("UPS URL: {}", tracking.tracking_url);
    }

    // Test with a Canada Post tracking number
    let result = track(&couriers, "0073938000549297");
    assert!(result.is_some(), "Should find Canada Post tracking number");

    if let Some(tracking) = result {
        assert!(tracking.tracking_url.contains("0073938000549297"),
                "URL should contain the tracking number");
        println!("Canada Post URL: {}", tracking.tracking_url);
    }
}

#[test]
fn test_courier_identification() {
    let couriers = couriers();
    let cases = vec![
        ("9400111206206406260787", "United States Postal Service", "USPS 22"),
        ("GM2951173225174494", "DHL", "DHL E-Commerce"),
        ("986578788855", "FedEx", "FedEx Express (12)"),
        ("1Z5R89390357567127", "UPS", "UPS"),
        ("0073938000549297", "Canada Post", "Canada Post (16)"),
    ];

    for (number, expected_courier, expected_service) in cases {
        let result = track(&couriers, number);
        assert!(result.is_some(), "Should find tracking number: {}", number);
        let tracking = result.unwrap();
        assert_eq!(
            tracking.courier, expected_courier,
            "Wrong courier for {}: expected '{}', got '{}'",
            number, expected_courier, tracking.courier
        );
        assert_eq!(
            tracking.service, expected_service,
            "Wrong service for {}: expected '{}', got '{}'",
            number, expected_service, tracking.service
        );
    }
}

/// The test numbers of each kind of tracking number, by the kind's name:
/// numbers that it accepts, then numbers that it refuses.
fn test_numbers(service: &str) -> (Vec<&'static str>, Vec<&'static str>) {
    match service {
        "Amazon Logistics" => (vec!["TBA123456789000", "TBA 1234 5678 9000"], vec!["TBA12345678900", "TBC123456789000"]),
        "Canada Post (16)" => (vec!["0073938000549297"], vec!["0073938000549292"]),
        "DHL Express" => (vec!["3318810025"], vec!["3318810011"]),
        "DHL E-Commerce" => (vec!["GM2951173225174494"], vec!["GM295117322517449", "GN2951173225174494"]),
        "FedEx Express (12)" => (vec!["986578788855", "9865 7878 8855"], vec!["986578788850"]),
        "FedEx Ground" => (vec!["123456789012343"], vec!["123456789012340"]),
        "UPS" => (
            vec!["1Z5R89390357567127", "1 Z 5R8939 0357567127"],
            vec!["1Z5R89390357567120", "1Z5R89399957567120"],
        ),
        "USPS 20" => (vec!["01234567890123456789"], vec!["01234567890123456780"]),
        "USPS 22" => (vec!["9400111206206406260787"], vec!["9400111206206406260780"]),
        other => panic!("no test numbers for {}", other),
    }
}

#[test]
fn test_valid_numbers() {
    for courier in couriers() {
        for tn in &courier.tracking_numbers {
            let (valid, _) = test_numbers(&tn.name);
            for valid_num in &valid {
                assert_eq!(true, tn.is_valid(valid_num), "{} should be a valid {}", valid_num, tn.name);
            }
        }
    }
}

#[test]
fn test_invalid_numbers() {
    for courier in couriers() {
        for tn in &courier.tracking_numbers {
            let (_, invalid) = test_numbers(&tn.name);
            for invalid_num in &invalid {
                assert_eq!(false, tn.is_valid(invalid_num), "{} should not be a valid {}", invalid_num, tn.name);
            }
        }
    }
}

#[test]
fn track_reports_service_and_url() {
    let couriers = couriers();
    let r = track(&couriers, "986578788855").unwrap();
    assert_eq!(r.courier, "FedEx");
    assert_eq!(r.service, "FedEx Express (12)");
    assert_eq!(r.tracking_number, "986578788855");
    assert_eq!(r.tracking_url, "https://www.fedex.com/fedextrack/?tracknumbers=986578788855");
}

#[test]
fn track_unknown_number_is_none() {
    let couriers = couriers();
    assert!(track(&couriers, "INVALID123456789").is_none());
    assert!(track(&couriers, "").is_none());
    assert!(track(&Vec::new(), "1Z5R89390357567127").is_none());
}

#[test]
fn track_whitespace_in_number() {
    let couriers = couriers();
    let r = track(&couriers, "1Z 5R8939 0357567127").unwrap();
    assert_eq!(r.service, "UPS");
    assert_eq!(r.tracking_url, "https://www.ups.com/track?tracknum=1Z 5R8939 0357567127");
}

#[test]
fn track_first_match_wins() {
    // Two kinds accept the same number: the earlier courier's is reported.
    let first = Courier {
        name: "First".to_string(),
        code: "first".to_string(),
        tracking_numbers: vec![kind("Any digits", &["[0-9]+"], None, None, None, vec![])],
    };
    let mut all = vec![first];
    all.extend(couriers());
    let r = track(&all, "986578788855").unwrap();
    assert_eq!(r.courier, "First");
    assert_eq!(r.service, "Any digits");
    assert_eq!(r.tracking_url, "");
}

#[test]
fn lookup_table_refuses_unknown_service_type() {
    let couriers = couriers();
    let ups = &couriers[4].tracking_numbers[0];
    // Service type "03" is listed, "99" is not; "A1" matches the pattern entry.
    assert!(ups.check_additional("1Z5R89390357567127"));
    assert!(!ups.check_additional("1Z5R89399957567120"));
    assert!(ups.check_additional("1Z5R8939A157567120"));
}

#[test]
fn lookup_missing_table_fails() {
    let tn = kind(
        "Missing table",
        &["(?<Code>[A-Z]+)"],
        None,
        None,
        Some(AdditionalValidation { exists: Some(vec!["Nowhere".to_string()]) }),
        vec![],
    );
    assert!(tn.check_format("ABC"));
    assert!(!tn.check_additional("ABC"));
    assert!(!tn.is_valid("ABC"));
}

#[test]
fn lookup_needs_a_match_even_without_tables() {
    let tn = kind(
        "Empty list",
        &["[A-Z]+"],
        None,
        None,
        Some(AdditionalValidation { exists: Some(vec![]) }),
        vec![],
    );
    assert!(tn.check_additional("ABC"));
    assert!(!tn.check_additional("123"));
}

#[test]
fn extract_captures_strips_whitespace() {
    let couriers = couriers();
    let ups = &couriers[4].tracking_numbers[0];
    let (serial, cd) = ups.extract_captures("1Z 5R8939 0357567127").unwrap();
    assert_eq!(serial, "5R8939035756712");
    assert_eq!(cd, "7");
    assert!(ups.extract_captures("nothing").is_none());
}

#[test]
fn check_validation_without_check_digit_group_fails() {
    let tn = kind("No groups", &["[0-9]+"], None, Some(Checksum::Mod7), None, vec![]);
    assert!(tn.check_format("123"));
    assert!(!tn.check_validation("123"));
}

#[test]
fn serial_number_format_prepends() {
    let tn = TrackingNumber::new(
        "Prefixed".to_string(),
        &PatternSource::Single("(?<SerialNumber>[0-9]{7})(?<CheckDigit>[0-9])".to_string()),
        None,
        Validation {
            checksum: Some(Checksum::Mod10 { evens_multiplier: 3, odds_multiplier: 1, reverse: false }),
            serial_number_format: Some(tracking_numbers::SerialNumberFormat {
                prepend_if: Some(tracking_numbers::PrependIf {
                    matches_regex: "^1".to_string(),
                    content: "92".to_string(),
                }),
            }),
            additional: None,
        },
        vec![],
    )
    .unwrap();
    assert_eq!(tn.regex, "^(?<SerialNumber>[0-9]{7})(?<CheckDigit>[0-9])$");
    assert_eq!(tn.apply_serial_number_format(&"1234567".to_string()), "921234567");
    assert_eq!(tn.apply_serial_number_format(&"2234567".to_string()), "2234567");
    // 921234567: weighted sum 9*3+2+1*3+2+3*3+4+5*3+6+7*3 = 89, check digit 1.
    assert!(tn.check_validation("12345671"));
    assert!(!tn.check_validation("12345670"));
}

#[test]
fn well_formedness_of_sum_product() {
    let bad = Checksum::SumProduct { weightings: vec![1], modulo1: 0, modulo2: 10 };
    assert!(!bad.is_well_formed());
    let good = Checksum::SumProduct { weightings: vec![1], modulo1: 11, modulo2: 10 };
    assert!(good.is_well_formed());
    let tn = kind("Bad", &["x"], None, Some(bad), None, vec![]);
    let courier = Courier { name: "c".to_string(), code: "c".to_string(), tracking_numbers: vec![tn] };
    assert!(!courier.is_well_formed());
}

#[test]
fn checksum_dispatches_to_its_scheme() {
    let mod10 = Checksum::Mod10 { evens_multiplier: 1, odds_multiplier: 2, reverse: false };
    assert!(mod10.validate("5R8939035756712", "7"));
    assert!(!mod10.validate("5R8939035756712", "6"));
    assert!(Checksum::Mod7.validate("331881002", "5"));
    let sp = Checksum::SumProduct { weightings: vec![3, 1, 7, 3, 1, 7, 3, 1, 7, 3, 1], modulo1: 11, modulo2: 10 };
    assert!(sp.validate("98657878885", "5"));
    assert!(Checksum::S10.validate("12345678", "5"));
    assert!(Checksum::Luhn.validate("7992739871", "3"));
    assert!(Checksum::Mod37_36.validate("09998000020033", "T"));
    assert!(!Checksum::Mod37_36.validate("09998000020033", "1"));
}

#[test]
fn zero_modulus_is_never_reached_before_the_refusals() {
    // A sum-of-products scheme with a zero modulus still refuses, without
    // dividing, a check digit that is not a number or a serial whose digit
    // count does not match its weightings.
    let broken = Checksum::SumProduct { weightings: vec![1, 1], modulo1: 0, modulo2: 10 };
    assert!(!broken.validate("12", "x"));
    assert!(!broken.validate("123", "3"));
    // A kind with that scheme refuses, without running it, a number that its
    // pattern does not capture.
    let tn = kind("Broken", &["(?<SerialNumber>[0-9]{2})(?<CheckDigit>[0-9])|x"], None, Some(broken), None, vec![]);
    assert!(!tn.is_valid("ab"));
    assert!(!tn.is_valid("x"));
}
