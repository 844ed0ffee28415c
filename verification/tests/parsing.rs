use tanker_price::locator::CompassDirection;
use tanker_price::locator::CoordValue;
use tanker_price::locator::CoordinateLocation;
use tanker_price::locator::Location;
use tanker_price::locator::LocationError;
use tanker_price::locator::UDecimal;
use tanker_price::locator::sexagesimal_to_decimal;
use tanker_price::locator::UNIT_SCALE;

fn coord(neg: bool, units: u128) -> CoordValue {
    CoordValue { neg, units }
}

#[test]
fn decimal_pair_comma() {
    // 52.5 degrees = 52.5 * 3600 * 10^15 units
    let loc = Location::from_str("52.5,13.4").unwrap();
    match loc {
        Location::Coordinates(c) => {
            assert_eq!(c.lat, coord(false, 189_000_000_000_000_000_000));
            assert_eq!(c.long, coord(false, 48_240_000_000_000_000_000));
        }
        Location::Named(_) => panic!("expected coordinates"),
    }
}

#[test]
fn decimal_pair_slash() {
    let loc = Location::from_str("52.5/13.4").unwrap();
    match loc {
        Location::Coordinates(c) => {
            assert_eq!(c.lat, coord(false, 189_000_000_000_000_000_000));
            assert_eq!(c.long, coord(false, 48_240_000_000_000_000_000));
        }
        Location::Named(_) => panic!("expected coordinates"),
    }
}

#[test]
fn decimal_pair_period_separator() {
    let loc = Location::from_str("52.5.13.4").unwrap();
    match loc {
        Location::Coordinates(c) => {
            assert_eq!(c.lat, coord(false, 189_000_000_000_000_000_000));
            assert_eq!(c.long, coord(false, 48_240_000_000_000_000_000));
        }
        Location::Named(_) => panic!("expected coordinates"),
    }
}

#[test]
fn decimal_pair_signs_and_spaces() {
    let loc = Location::from_str("  -52.5 , +13.4  ").unwrap();
    match loc {
        Location::Coordinates(c) => {
            assert_eq!(c.lat, coord(true, 189_000_000_000_000_000_000));
            assert_eq!(c.long, coord(false, 48_240_000_000_000_000_000));
        }
        Location::Named(_) => panic!("expected coordinates"),
    }
}

#[test]
fn greedy_fraction_gives_up_the_period() {
    // "52.5" alone: the fraction cannot keep the period, which is then
    // read as the separator, exactly as a leftmost-first regex does.
    let loc = Location::from_str("52.5").unwrap();
    match loc {
        Location::Coordinates(c) => {
            assert_eq!(c.lat, coord(false, 52 * UNIT_SCALE));
            assert_eq!(c.long, coord(false, 5 * UNIT_SCALE));
        }
        Location::Named(_) => panic!("expected coordinates"),
    }
}

#[test]
fn sexagesimal_with_minutes() {
    let loc = Location::from_str("52°30'N 13°24'E").unwrap();
    match loc {
        Location::Coordinates(c) => {
            assert_eq!(c.lat, coord(false, 189_000_000_000_000_000_000));
            assert_eq!(c.long, coord(false, 48_240_000_000_000_000_000));
        }
        Location::Named(_) => panic!("expected coordinates"),
    }
}

#[test]
fn sexagesimal_degrees_only_south_west() {
    let loc = Location::from_str("52°S 13°W").unwrap();
    match loc {
        Location::Coordinates(c) => {
            assert_eq!(c.lat, coord(true, 52 * UNIT_SCALE));
            assert_eq!(c.long, coord(true, 13 * UNIT_SCALE));
        }
        Location::Named(_) => panic!("expected coordinates"),
    }
}

#[test]
fn sexagesimal_with_seconds() {
    let loc = Location::from_str("52°30'36\"N 13°24'36\"E").unwrap();
    match loc {
        Location::Coordinates(c) => {
            assert_eq!(c.lat, coord(false, 189_036_000_000_000_000_000));
            assert_eq!(c.long, coord(false, 48_276_000_000_000_000_000));
        }
        Location::Named(_) => panic!("expected coordinates"),
    }
}

#[test]
fn sexagesimal_lower_case_letters() {
    let loc = Location::from_str("52°s 13°w").unwrap();
    match loc {
        Location::Coordinates(c) => {
            assert_eq!(c.lat, coord(true, 52 * UNIT_SCALE));
            assert_eq!(c.long, coord(true, 13 * UNIT_SCALE));
        }
        Location::Named(_) => panic!("expected coordinates"),
    }
}

#[test]
fn named_keeps_original_casing() {
    let loc = Location::from_str("Berlin").unwrap();
    match loc {
        Location::Named(n) => assert_eq!(n, "Berlin"),
        Location::Coordinates(_) => panic!("expected a name"),
    }
}

#[test]
fn named_keeps_surrounding_whitespace() {
    let loc = Location::from_str("  Potsdamer Platz 1 ").unwrap();
    match loc {
        Location::Named(n) => assert_eq!(n, "  Potsdamer Platz 1 "),
        Location::Coordinates(_) => panic!("expected a name"),
    }
}

#[test]
fn degree_sign_without_compass_letter_is_a_name() {
    let loc = Location::from_str("52°30' 13°24'").unwrap();
    match loc {
        Location::Named(n) => assert_eq!(n, "52°30' 13°24'"),
        Location::Coordinates(_) => panic!("expected a name"),
    }
}

#[test]
fn empty_string_is_a_name() {
    let loc = Location::from_str("").unwrap();
    match loc {
        Location::Named(n) => assert_eq!(n, ""),
        Location::Coordinates(_) => panic!("expected a name"),
    }
}

#[test]
fn oversized_numeral_is_a_numeric_error() {
    // sixteen integer digits cannot be held exactly
    let r = Location::from_str("9999999999999999,1");
    assert_eq!(r.unwrap_err(), LocationError::ParseFloatError);
}

#[test]
fn too_many_fraction_digits_is_a_numeric_error() {
    let r = Location::from_str("1.0000000000000001,2");
    assert_eq!(r.unwrap_err(), LocationError::ParseFloatError);
}

#[test]
fn compass_tokens() {
    assert_eq!(CompassDirection::from_token("N").unwrap(), CompassDirection::North);
    assert_eq!(CompassDirection::from_token("north").unwrap(), CompassDirection::North);
    assert_eq!(CompassDirection::from_token("E").unwrap(), CompassDirection::East);
    assert_eq!(CompassDirection::from_token("East").unwrap(), CompassDirection::East);
    assert_eq!(CompassDirection::from_token("s").unwrap(), CompassDirection::South);
    assert_eq!(CompassDirection::from_token("SOUTH").unwrap(), CompassDirection::South);
    assert_eq!(CompassDirection::from_token("w").unwrap(), CompassDirection::West);
    assert_eq!(CompassDirection::from_token("West").unwrap(), CompassDirection::West);
    assert_eq!(
        CompassDirection::from_token("X").unwrap_err(),
        LocationError::Malformed
    );
    assert_eq!(
        CompassDirection::from_token("NORTHX").unwrap_err(),
        LocationError::Malformed
    );
}

#[test]
fn compass_signs() {
    assert!(CompassDirection::North.sign_positive());
    assert!(CompassDirection::East.sign_positive());
    assert!(!CompassDirection::South.sign_positive());
    assert!(!CompassDirection::West.sign_positive());
}

#[test]
fn sexagesimal_to_decimal_examples() {
    let with_minutes = sexagesimal_to_decimal(
        UDecimal::from_int(52),
        Some(UDecimal::from_int(30)),
        None,
    );
    assert_eq!(with_minutes, coord(false, 189_000_000_000_000_000_000));
    let degrees_only = sexagesimal_to_decimal(UDecimal::from_int(10), None, None);
    assert_eq!(degrees_only, coord(false, 10 * UNIT_SCALE));
}

#[test]
fn display_and_round_trip() {
    let c = CoordinateLocation {
        lat: coord(false, 189_000_000_000_000_000_000),
        long: coord(true, 48_240_000_000_000_000_000),
    };
    let text = c.display_string();
    assert_eq!(text, "52.5,-13.4");
    let back = Location::from_str(&text).unwrap();
    match back {
        Location::Coordinates(c2) => assert_eq!(c2, c),
        Location::Named(_) => panic!("expected coordinates"),
    }
}

#[test]
fn display_whole_degrees_and_zero() {
    let c = CoordinateLocation {
        lat: coord(true, 52 * UNIT_SCALE),
        long: coord(false, 0),
    };
    assert_eq!(c.display_string(), "-52,0");
    let back = Location::from_str(&c.display_string()).unwrap();
    match back {
        Location::Coordinates(c2) => assert_eq!(c2, c),
        Location::Named(_) => panic!("expected coordinates"),
    }
}

#[test]
fn display_of_exact_seconds() {
    // 36 seconds are exactly 0.01 degrees
    let loc = Location::from_str("0°0'36\"N 0°0'36\"E").unwrap();
    match loc {
        Location::Coordinates(c) => assert_eq!(c.display_string(), "0.01,0.01"),
        Location::Named(_) => panic!("expected coordinates"),
    }
}

#[test]
fn display_of_repeating_seconds_truncates() {
    // one second is 1/3600 of a degree: a repeating decimal, rendered
    // with 18 fraction digits
    let loc = Location::from_str("0°0'1\"N 0°0'1\"E").unwrap();
    match loc {
        Location::Coordinates(c) => assert_eq!(
            c.display_string(),
            "0.000277777777777777,0.000277777777777777"
        ),
        Location::Named(_) => panic!("expected coordinates"),
    }
}

#[test]
fn location_display_of_name() {
    let loc = Location::from_str("Berlin").unwrap();
    assert_eq!(loc.display_string(), "Berlin");
}

#[test]
fn error_messages() {
    assert_eq!(LocationError::Malformed.message(), "Malformed");
    assert_eq!(LocationError::ParseFloatError.message(), "ParseFloatError");
    assert_eq!(LocationError::ReqwestError.message(), "ReqwestError");
    assert_eq!(LocationError::Unresolveable.message(), "Unresolveable");
}

#[test]
fn parse_decimal_value() {
    let v = CoordValue::parse_decimal("1.0").unwrap();
    assert_eq!(v, coord(false, UNIT_SCALE));
    let w = CoordValue::parse_decimal("-2.25").unwrap();
    assert_eq!(w, coord(true, 2 * UNIT_SCALE + UNIT_SCALE / 4));
    assert_eq!(
        CoordValue::parse_decimal("abc").unwrap_err(),
        LocationError::ParseFloatError
    );
    // no whitespace trimming here, as with a bare float parse
    assert_eq!(
        CoordValue::parse_decimal(" 1.0").unwrap_err(),
        LocationError::ParseFloatError
    );
}
