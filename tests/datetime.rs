use tantivy::{DatePrecision, DateTime};

#[test]
fn timestamps_convert() {
    let dt = DateTime::from_timestamp_secs(12);
    assert_eq!(dt.into_timestamp_micros(), 12_000_000);
    assert_eq!(dt.into_timestamp_millis(), 12_000);
    assert_eq!(dt.into_timestamp_secs(), 12);
    let dt = DateTime::from_timestamp_millis(-1_500);
    assert_eq!(dt.into_timestamp_micros(), -1_500_000);
    assert_eq!(dt.into_timestamp_secs(), -1);
}

#[test]
fn truncation_rounds_towards_zero() {
    let dt = DateTime::from_timestamp_micros(1_234_567);
    assert_eq!(dt.truncate(DatePrecision::Seconds).into_timestamp_micros(), 1_000_000);
    assert_eq!(dt.truncate(DatePrecision::Milliseconds).into_timestamp_micros(), 1_234_000);
    assert_eq!(dt.truncate(DatePrecision::Microseconds).into_timestamp_micros(), 1_234_567);
    let dt = DateTime::from_timestamp_micros(-1_234_567);
    assert_eq!(dt.truncate(DatePrecision::Seconds).into_timestamp_micros(), -1_000_000);
}

#[test]
fn utc_round_trip() {
    let dt = DateTime::from_timestamp_micros(1_654_070_400_500_000);
    let utc = dt.into_utc();
    assert_eq!(utc.unix_timestamp(), 1_654_070_400);
    assert_eq!(utc.microsecond(), 500_000);
    assert_eq!(DateTime::from_utc(utc), dt);
    assert_eq!(DateTime::from_primitive(dt.into_primitive()), dt);
    let offset = time::UtcOffset::from_hms(2, 0, 0).unwrap();
    let local = dt.into_offset(offset).unwrap();
    assert_eq!(local.hour(), 10);
    assert_eq!(DateTime::from_utc(local), dt);
}

#[test]
fn unix_parts() {
    assert_eq!(DateTime::from_unix_parts(-1, 250_000).into_timestamp_micros(), -750_000);
}
