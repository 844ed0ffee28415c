use tanker_price::locator::CoordValue;
use tanker_price::locator::CoordinateLocation;
use tanker_price::locator::UDecimal;
use tanker_price::locator::UNIT_SCALE;
use tanker_price::tankerkoenig::TankerAPIStation;
use tanker_price::tankerkoenig::TankerError;
use tanker_price::tankerkoenig::TankerFuelType;
use tanker_price::tankerkoenig::TankerKoenig;
use tanker_price::tankerkoenig::TankerStation;

fn udec(units: u128) -> UDecimal {
    UDecimal { units }
}

fn sample_row() -> TankerAPIStation {
    TankerAPIStation {
        id: "id1".to_string(),
        name: "S1".to_string(),
        brand: "Shell".to_string(),
        lat: CoordValue { neg: false, units: 189_000_000_000_000_000_000 },
        lng: CoordValue { neg: false, units: 48_240_000_000_000_000_000 },
        dist: udec(1_200_000_000_000_000),
        diesel: Some(udec(1_659_000_000_000_000)),
        e5: None,
        e10: Some(udec(1_779_000_000_000_000)),
        is_open: true,
    }
}

#[test]
fn station_from_row_collects_prices_in_order() {
    let st = TankerStation::from(sample_row());
    assert_eq!(st.id, "id1");
    assert_eq!(st.name, "S1");
    assert_eq!(st.brand, "Shell");
    assert!(st.is_open);
    assert_eq!(st.dist, udec(1_200_000_000_000_000));
    assert_eq!(st.prices.len(), 2);
    assert_eq!(st.prices[0].fuel_type, TankerFuelType::Diesel);
    assert_eq!(st.prices[0].price, udec(1_659_000_000_000_000));
    assert_eq!(st.prices[1].fuel_type, TankerFuelType::E10);
    assert_eq!(st.prices[1].price, udec(1_779_000_000_000_000));
    assert_eq!(
        st.location,
        CoordinateLocation {
            lat: CoordValue { neg: false, units: 189_000_000_000_000_000_000 },
            long: CoordValue { neg: false, units: 48_240_000_000_000_000_000 },
        }
    );
}

#[test]
fn station_without_prices_has_an_empty_list() {
    let mut row = sample_row();
    row.diesel = None;
    row.e10 = None;
    let st = TankerStation::from(row);
    assert_eq!(st.prices.len(), 0);
}

#[test]
fn ok_response_maps_every_row() {
    let rows = vec![sample_row(), sample_row()];
    let stations = TankerKoenig::stations_from_response(true, Some(rows), None).unwrap();
    assert_eq!(stations.len(), 2);
    assert_eq!(stations[0].id, "id1");
    assert_eq!(stations[1].brand, "Shell");
}

#[test]
fn failed_response_carries_the_message() {
    let r = TankerKoenig::stations_from_response(false, None, Some("boom".to_string()));
    match r {
        Err(TankerError::APIError(Some(m))) => assert_eq!(m, "boom"),
        _ => panic!("expected an API error with its message"),
    }
}

#[test]
fn ok_flag_without_stations_is_an_api_error() {
    let r = TankerKoenig::stations_from_response(true, None, None);
    match r {
        Err(TankerError::APIError(None)) => {}
        _ => panic!("expected an API error without a message"),
    }
}

#[test]
fn fuel_labels() {
    assert_eq!(TankerFuelType::E10.label(), "E10");
    assert_eq!(TankerFuelType::E5.label(), "E5");
    assert_eq!(TankerFuelType::Diesel.label(), "Diesel");
}

#[test]
fn price_text_rounds_to_hundredths() {
    let st = TankerStation::from(sample_row());
    assert_eq!(st.prices[1].price_string(), "1.78");
    assert_eq!(st.prices[0].price_string(), "1.66");
}

#[test]
fn station_report_text() {
    let st = TankerStation::from(sample_row());
    let expected = "Shell/S1 (id1)\n\tlocation: 52.5,13.4\n\topen: true\n\tdist: 1.2\n\tPrices:\n\t\tDiesel: 1.66€\n\t\tE10: 1.78€\n";
    assert_eq!(st.report_string(), expected);
}

#[test]
fn query_holds_its_parts() {
    let tk = TankerKoenig {
        api_key: "testkey".to_string(),
        radius: udec(2_000_000_000_000_000),
        location: CoordinateLocation {
            lat: CoordValue { neg: false, units: 52 * UNIT_SCALE },
            long: CoordValue { neg: false, units: 13 * UNIT_SCALE },
        },
    };
    assert_eq!(tk.radius, udec(2_000_000_000_000_000));
    assert_eq!(tk.api_key, "testkey");
}
