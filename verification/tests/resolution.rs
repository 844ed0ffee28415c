use tanker_price::locator::CoordValue;
use tanker_price::locator::CoordinateLocation;
use tanker_price::locator::Location;
use tanker_price::locator::LocationError;
use tanker_price::locator::OSMLocation;
use tanker_price::locator::UNIT_SCALE;

fn coord(neg: bool, units: u128) -> CoordValue {
    CoordValue { neg, units }
}

#[test]
fn coordinate_location_needs_no_lookup() {
    let loc = Location::from_str("52.5,13.4").unwrap();
    assert!(loc.lookup_name().is_none());
}

#[test]
fn named_location_asks_for_its_name() {
    let loc = Location::from_str("Berlin").unwrap();
    assert_eq!(loc.lookup_name().unwrap(), "Berlin");
}

#[test]
fn resolving_coordinates_returns_an_equal_value() {
    let loc = Location::from_str("52.5,13.4").unwrap();
    let expected = CoordinateLocation {
        lat: coord(false, 189_000_000_000_000_000_000),
        long: coord(false, 48_240_000_000_000_000_000),
    };
    // even a non-empty search result is ignored
    let results = vec![OSMLocation { lat: "9.0".to_string(), lon: "9.0".to_string() }];
    assert_eq!(loc.resolve_from_search(&results).unwrap(), expected);
    let no_results: Vec<OSMLocation> = vec![];
    assert_eq!(loc.resolve_from_search(&no_results).unwrap(), expected);
}

#[test]
fn named_with_empty_results_is_unresolveable() {
    let loc = Location::from_str("Berlin").unwrap();
    let results: Vec<OSMLocation> = vec![];
    assert_eq!(
        loc.resolve_from_search(&results).unwrap_err(),
        LocationError::Unresolveable
    );
}

#[test]
fn named_takes_the_first_result_only() {
    let loc = Location::from_str("Berlin").unwrap();
    let results = vec![
        OSMLocation { lat: "1.0".to_string(), lon: "2.0".to_string() },
        OSMLocation { lat: "bogus".to_string(), lon: "bogus".to_string() },
    ];
    let resolved = loc.resolve_from_search(&results).unwrap();
    assert_eq!(resolved.lat, coord(false, UNIT_SCALE));
    assert_eq!(resolved.long, coord(false, 2 * UNIT_SCALE));
}

#[test]
fn named_with_bad_numerals_is_a_numeric_error() {
    let loc = Location::from_str("Berlin").unwrap();
    let results = vec![OSMLocation { lat: "x".to_string(), lon: "2.0".to_string() }];
    assert_eq!(
        loc.resolve_from_search(&results).unwrap_err(),
        LocationError::ParseFloatError
    );
}
