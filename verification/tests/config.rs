use tanker_price::args::arg_validate_radius;
use tanker_price::args::arg_validate_update_time;
use tanker_price::locator::UDecimal;

#[test]
fn update_time_accepts_five_minutes_and_more() {
    assert_eq!(arg_validate_update_time("300").unwrap(), 300);
    assert_eq!(arg_validate_update_time("86400").unwrap(), 86400);
    assert_eq!(arg_validate_update_time("+600").unwrap(), 600);
}

#[test]
fn update_time_rejects_short_cycles_with_the_exact_message() {
    let e = arg_validate_update_time("299").unwrap_err();
    assert_eq!(
        e,
        "Your update cycle 299 is shorter than five minutes. You have to use at least five minutes (300s) to comply with the Tankerkönig API Terms."
    );
}

#[test]
fn update_time_rejects_bad_integers() {
    let msg = "Your update time is not a valid (unsigned) integer!";
    assert_eq!(arg_validate_update_time("abc").unwrap_err(), msg);
    assert_eq!(arg_validate_update_time("").unwrap_err(), msg);
    assert_eq!(arg_validate_update_time("-300").unwrap_err(), msg);
    assert_eq!(arg_validate_update_time("3.5").unwrap_err(), msg);
    // larger than any 64-bit count of seconds
    assert_eq!(arg_validate_update_time("99999999999999999999").unwrap_err(), msg);
}

#[test]
fn radius_accepts_values_up_to_25() {
    assert_eq!(
        arg_validate_radius("2").unwrap(),
        UDecimal { units: 2_000_000_000_000_000 }
    );
    assert_eq!(
        arg_validate_radius("2.5").unwrap(),
        UDecimal { units: 2_500_000_000_000_000 }
    );
    assert_eq!(
        arg_validate_radius("25.0").unwrap(),
        UDecimal { units: 25_000_000_000_000_000 }
    );
    assert_eq!(arg_validate_radius("0").unwrap(), UDecimal { units: 0 });
    // negative zero is not less than zero
    assert_eq!(arg_validate_radius("-0").unwrap(), UDecimal { units: 0 });
}

#[test]
fn radius_rejects_negative_values_with_the_exact_message() {
    let e = arg_validate_radius("-3").unwrap_err();
    assert_eq!(e, "The provided radius -3 is less than 0!");
    let e2 = arg_validate_radius("-3.10").unwrap_err();
    assert_eq!(e2, "The provided radius -3.1 is less than 0!");
}

#[test]
fn radius_rejects_values_above_25_with_the_exact_message() {
    let e = arg_validate_radius("25.1").unwrap_err();
    assert_eq!(
        e,
        "The provided radius 25.1 is larger than 25km, which is not allowed by the Tankerkönig API. Please choose a radius <= 25."
    );
}

#[test]
fn radius_rejects_bad_numbers() {
    let msg = "The radius is not a valid floating point number!";
    assert_eq!(arg_validate_radius("abc").unwrap_err(), msg);
    assert_eq!(arg_validate_radius("").unwrap_err(), msg);
    assert_eq!(arg_validate_radius("1.2.3").unwrap_err(), msg);
}
