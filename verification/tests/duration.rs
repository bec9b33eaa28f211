use router_monitor::duration::{parse_duration, DurationError, DurationSpec};
use router_monitor::errors::{duplicate_duration_unit, unsupported_duration_unit, MIXED_DURATION_UNITS};

fn parse(input: &[&str]) -> Result<DurationSpec, DurationError> {
    parse_duration(
        &input
            .iter()
            .map(|value| value.to_string())
            .collect::<Vec<_>>(),
    )
}

fn total_seconds_exact(duration: &DurationSpec) -> f64 {
    let (secs, nanos) = duration.total();
    secs as f64 + nanos as f64 / 1_000_000_000.0
}

#[test]
fn parses_unitless_seconds() {
    assert_eq!(total_seconds_exact(&parse(&["15"]).unwrap()), 15.0);
}

#[test]
fn parses_duration_examples() {
    let examples = [
        (vec!["15s"], 15.0),
        (vec!["7m"], 420.0),
        (vec!["3.5m"], 210.0),
        (vec!["4m", "20s"], 260.0),
        (vec!["7m", "150s"], 570.0),
        (vec!["7.5m", "20s"], 470.0),
        (vec!["9.4m", "200s"], 764.0),
        (vec!["1h", "30m"], 5_400.0),
        (vec!["1d", "4h", "20m"], 102_000.0),
    ];

    for (input, expected_seconds) in examples {
        assert_eq!(
            total_seconds_exact(&parse(&input).unwrap()),
            expected_seconds,
            "{input:?}"
        );
    }
}

#[test]
fn parses_decimal_values_for_all_units() {
    let examples = [
        (vec!["1.5s"], 1.5),
        (vec!["1.5m"], 90.0),
        (vec!["2.25h"], 8_100.0),
        (vec!["0.5d"], 43_200.0),
    ];

    for (input, expected_seconds) in examples {
        assert_eq!(
            total_seconds_exact(&parse(&input).unwrap()),
            expected_seconds,
            "{input:?}"
        );
    }
}

#[test]
fn rounds_fractional_seconds_up_for_sampling() {
    assert_eq!(parse(&["1.5s"]).unwrap().sample_seconds(), 2);
}

#[test]
fn rejects_duplicate_units() {
    let error = parse(&["1m", "11m"]).unwrap_err().message();
    assert!(error.contains("Duration unit 'm' was specified more than once."));
}

#[test]
fn rejects_mixed_unitless_and_unit_based_values() {
    let error = parse(&["15", "20s"]).unwrap_err().message();
    assert!(error.contains(MIXED_DURATION_UNITS));

    let error = parse(&["15s", "20"]).unwrap_err().message();
    assert!(error.contains(MIXED_DURATION_UNITS));
}

#[test]
fn rejects_invalid_units() {
    for input in [["7.5c"], ["3w"], ["10years"], ["abc"]] {
        let error = parse(&input).unwrap_err().message();
        assert!(
            error.contains("Supported units are: s, m, h, d."),
            "{error}"
        );
    }
}

#[test]
fn calculates_total_duration() {
    assert_eq!(
        total_seconds_exact(&parse(&["1h", "30m", "15s"]).unwrap()),
        5_415.0
    );
}

#[test]
fn exact_total_in_whole_seconds_and_nanoseconds() {
    assert_eq!(parse(&["1.5s"]).unwrap().total(), (1, 500_000_000));
    assert_eq!(parse(&["9.4m", "200s"]).unwrap().total(), (764, 0));
    assert_eq!(parse(&[".5m"]).unwrap().total(), (30, 0));
    assert_eq!(parse(&["5."]).unwrap().total(), (5, 0));
    assert_eq!(parse(&["0.0000000015s"]).unwrap().total(), (0, 2));
    assert_eq!(parse(&["0.0000000001s"]).unwrap().total(), (0, 0));
    assert_eq!(parse(&["0.0000000001m"]).unwrap().total(), (0, 6));
}

#[test]
fn total_rounds_to_the_nearest_nanosecond() {
    assert_eq!(parse(&["0.0000000009s"]).unwrap().total(), (0, 1));
    assert_eq!(parse(&["0.0000000009s"]).unwrap().sample_seconds(), 1);
    assert_eq!(parse(&["0.0000000004s"]).unwrap().total(), (0, 0));
    assert_eq!(parse(&["0.0000000005s"]).unwrap().total(), (0, 0));
    assert_eq!(parse(&["0.00000000050001s"]).unwrap().total(), (0, 1));
    assert_eq!(parse(&["0.0000000025s"]).unwrap().total(), (0, 2));
    assert_eq!(parse(&["0.0000000035s"]).unwrap().total(), (0, 4));
    assert_eq!(parse(&["1.0000000005s"]).unwrap().total(), (1, 0));
    assert_eq!(parse(&["0.9999999999s"]).unwrap().total(), (1, 0));
    // The parts are added before rounding: 0.3996 ns and 0.4 ns make 0.7996 ns.
    assert_eq!(
        parse(&["0.00000000000666m", "0.0000000004s"]).unwrap().total(),
        (0, 1)
    );
    assert_eq!(parse(&["359.41d"]).unwrap().total(), (31_053_024, 0));
}

#[test]
fn whole_seconds_are_sampled_exactly() {
    assert_eq!(parse(&["15"]).unwrap().sample_seconds(), 15);
    assert_eq!(parse(&["7m"]).unwrap().sample_seconds(), 420);
    assert_eq!(parse(&["0.0000000015s"]).unwrap().sample_seconds(), 1);
}

#[test]
fn display_joins_the_parts_as_given() {
    assert_eq!(parse(&["4m", "20s"]).unwrap().display(), "4m 20s");
    assert_eq!(parse(&[" 15s "]).unwrap().display(), " 15s ");
    assert_eq!(total_seconds_exact(&parse(&[" 15s "]).unwrap()), 15.0);
}

#[test]
fn unitless_value_equals_seconds() {
    assert_eq!(parse(&["42.5"]).unwrap().total(), parse(&["42.5s"]).unwrap().total());
}

#[test]
fn order_of_parts_does_not_change_the_total() {
    assert_eq!(parse(&["20s", "4m"]).unwrap().total(), parse(&["4m", "20s"]).unwrap().total());
    assert_eq!(
        parse(&["20m", "1d", "4.5h"]).unwrap().total(),
        parse(&["1d", "4.5h", "20m"]).unwrap().total()
    );
    assert_eq!(parse(&["4h", "20m", "1d"]).unwrap().total(), (102_000, 0));
}

#[test]
fn reports_each_error() {
    assert_eq!(parse(&[]).unwrap_err(), DurationError::Missing);
    assert_eq!(
        parse(&[]).unwrap_err().message(),
        "A monitoring duration is required."
    );
    assert_eq!(parse(&["  "]).unwrap_err(), DurationError::EmptyValue);
    assert_eq!(
        parse(&["  "]).unwrap_err().message(),
        "Duration values cannot be empty."
    );
    assert_eq!(
        parse(&["1.2.3s"]).unwrap_err().message(),
        "Invalid duration value '1.2.3s'."
    );
    assert_eq!(parse(&["."]).unwrap_err().message(), "Invalid duration value '.'.");
    assert_eq!(
        parse(&["0m"]).unwrap_err().message(),
        "Duration value '0m' must be greater than zero."
    );
    assert_eq!(
        parse(&["0.0"]).unwrap_err(),
        DurationError::NotPositiveValue("0.0".to_string())
    );
    assert_eq!(
        parse(&["7.5c"]).unwrap_err(),
        DurationError::UnsupportedUnit("c".to_string())
    );
    assert_eq!(
        parse(&[".x"]).unwrap_err(),
        DurationError::UnsupportedUnit("x".to_string())
    );
    assert_eq!(parse(&["15", "20"]).unwrap_err(), DurationError::MultipleUnitless);
    assert_eq!(
        parse(&["15", "20"]).unwrap_err().message(),
        "Unitless duration must be supplied as a single value."
    );
    assert_eq!(parse(&["1m", "2s", "3m"]).unwrap_err(), DurationError::DuplicateUnit('m'));
    assert_eq!(
        parse(&["18446744073709551616"]).unwrap_err(),
        DurationError::TooLarge
    );
    assert_eq!(
        parse(&["18446744073709551616"]).unwrap_err().message(),
        "Duration is too large."
    );
    assert_eq!(
        parse(&["18446744073709551615"]).unwrap().sample_seconds(),
        u64::MAX
    );
}

#[test]
fn first_unreadable_part_decides_the_error() {
    assert_eq!(
        parse(&["x", "0"]).unwrap_err(),
        DurationError::UnsupportedUnit("x".to_string())
    );
    assert_eq!(
        parse(&["0", "x"]).unwrap_err(),
        DurationError::NotPositiveValue("0".to_string())
    );
}

#[test]
fn error_messages_name_the_unit() {
    assert_eq!(
        duplicate_duration_unit('h'),
        "Duration unit 'h' was specified more than once."
    );
    assert_eq!(
        unsupported_duration_unit("w"),
        "Unsupported duration unit 'w'. Supported units are: s, m, h, d."
    );
}
