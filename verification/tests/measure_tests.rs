use diss_check::checkers::layout::read_setting;
use diss_check::checkers::measure::{parse_measurement, MeasurementError};
use diss_check::params::ParamValue;
use diss_check::text::{lower_chars, string_of};

#[test]
fn measurements_in_inches_and_points() {
    assert_eq!(parse_measurement("1in"), Ok(72000));
    assert_eq!(parse_measurement("1.25in"), Ok(90000));
    assert_eq!(parse_measurement(" 0.125 in "), Ok(9000));
    assert_eq!(parse_measurement("12pt"), Ok(12000));
    assert_eq!(parse_measurement("10.5pt"), Ok(10500));
    assert_eq!(parse_measurement("-2pt"), Ok(-2000));
    assert_eq!(parse_measurement("+3pt"), Ok(3000));
    assert_eq!(parse_measurement(".5in"), Ok(36000));
}

#[test]
fn measurement_errors() {
    assert_eq!(parse_measurement("abcin"), Err(MeasurementError::InvalidInches));
    assert_eq!(parse_measurement("in"), Err(MeasurementError::InvalidInches));
    assert_eq!(parse_measurement("1.2.3pt"), Err(MeasurementError::InvalidPoints));
    assert_eq!(parse_measurement("12mm"), Err(MeasurementError::Unsupported));
    assert_eq!(parse_measurement(""), Err(MeasurementError::Unsupported));
}

#[test]
fn settings_fall_back() {
    let p = ParamValue::Mapping(vec![
        (ParamValue::Str("left".to_string()), ParamValue::Str("1in".to_string())),
        (ParamValue::Str("right".to_string()), ParamValue::Str("wide".to_string())),
    ]);
    assert_eq!(read_setting(&p, "left", "1.25in", 90000), 72000);
    assert_eq!(read_setting(&p, "right", "1.25in", 90000), 90000);
    assert_eq!(read_setting(&p, "top", "1in", 72000), 72000);
}

#[test]
fn strings_and_lowercase() {
    let v: Vec<char> = "ÀB c".chars().collect();
    assert_eq!(string_of(&v), "ÀB c");
    let l = lower_chars(&v);
    assert_eq!(l.iter().collect::<String>(), "àb c");
}

#[test]
fn measurements_with_exponents_and_infinities() {
    assert_eq!(parse_measurement("1e1pt"), Ok(10000));
    assert_eq!(parse_measurement("1.5E-1in"), Ok(10800));
    assert_eq!(parse_measurement("1.e2pt"), Ok(100000));
    assert_eq!(parse_measurement("25e-1 pt"), Ok(2500));
    assert_eq!(parse_measurement("1e400pt"), Ok(i32::MAX));
    assert_eq!(parse_measurement("-1e400pt"), Ok(i32::MIN));
    assert_eq!(parse_measurement("1e-400pt"), Ok(0));
    assert_eq!(parse_measurement("0e999999999999999999999pt"), Ok(0));
    assert_eq!(parse_measurement("0.000001e6pt"), Ok(1000));
    assert_eq!(parse_measurement("infpt"), Ok(i32::MAX));
    assert_eq!(parse_measurement("-Infinity in"), Ok(i32::MIN));
    assert_eq!(parse_measurement("1e5in"), Ok(i32::MAX));
    assert_eq!(parse_measurement("nanpt"), Err(MeasurementError::InvalidPoints));
    assert_eq!(parse_measurement("1ept"), Err(MeasurementError::InvalidPoints));
    assert_eq!(parse_measurement("1e+pt"), Err(MeasurementError::InvalidPoints));
    assert_eq!(parse_measurement("e5in"), Err(MeasurementError::InvalidInches));
    assert_eq!(parse_measurement("infinin"), Err(MeasurementError::InvalidInches));
}
