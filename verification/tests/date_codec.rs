use xlsx_manager::date::Timestamp;
use xlsx_manager::date::excel_serial_to_naive_datetime;
use xlsx_manager::date::naive_datetime_to_excel_serial;

fn split_serial(serial: f64) -> (i64, i64) {
    let days = serial.trunc() as i64;
    let day_secs = (serial.fract() * 86400.0).round() as i64;
    (days, day_secs)
}

fn ts(year: i64, month: u8, day: u8, hour: u8, minute: u8, second: u8) -> Timestamp {
    Timestamp { year, month, day, hour, minute, second }
}

#[test]
fn decode_zero_is_epoch() {
    let (d, s) = split_serial(0.0);
    assert_eq!(excel_serial_to_naive_datetime(d, s), Some(ts(1899, 12, 30, 0, 0, 0)));
}

#[test]
fn decode_whole_days() {
    assert_eq!(excel_serial_to_naive_datetime(1, 0), Some(ts(1899, 12, 31, 0, 0, 0)));
    assert_eq!(excel_serial_to_naive_datetime(2, 0), Some(ts(1900, 1, 1, 0, 0, 0)));
    assert_eq!(excel_serial_to_naive_datetime(59, 0), Some(ts(1900, 2, 27, 0, 0, 0)));
    assert_eq!(excel_serial_to_naive_datetime(45000, 0), Some(ts(2023, 3, 15, 0, 0, 0)));
}

#[test]
fn decode_leap_day() {
    assert_eq!(excel_serial_to_naive_datetime(36585, 0), Some(ts(2000, 2, 29, 0, 0, 0)));
}

#[test]
fn decode_day_fraction() {
    let (d, s) = split_serial(45000.5);
    assert_eq!(excel_serial_to_naive_datetime(d, s), Some(ts(2023, 3, 15, 12, 0, 0)));
}

#[test]
fn decode_last_second_of_day() {
    let (d, s) = split_serial(36585.999988425926);
    assert_eq!((d, s), (36585, 86399));
    assert_eq!(excel_serial_to_naive_datetime(d, s), Some(ts(2000, 2, 29, 23, 59, 59)));
}

#[test]
fn decode_rounds_up_to_next_day() {
    // A fraction within half a second of midnight rounds to a full day of
    // seconds, which carries into the day count.
    assert_eq!(excel_serial_to_naive_datetime(1, 86400), Some(ts(1900, 1, 1, 0, 0, 0)));
}

#[test]
fn decode_splits_time_of_day() {
    assert_eq!(excel_serial_to_naive_datetime(0, 3661), Some(ts(1899, 12, 30, 1, 1, 1)));
    assert_eq!(excel_serial_to_naive_datetime(0, 86399), Some(ts(1899, 12, 30, 23, 59, 59)));
}

#[test]
fn decode_negative_serial() {
    let (d, s) = split_serial(-1.5);
    assert_eq!((d, s), (-1, -43200));
    assert_eq!(excel_serial_to_naive_datetime(d, s), Some(ts(1899, 12, 28, 12, 0, 0)));
}

#[test]
fn decode_range_limits() {
    // The last representable day, and the first one past it.
    assert_eq!(excel_serial_to_naive_datetime(2958465, 0), Some(ts(9999, 12, 31, 0, 0, 0)));
    assert_eq!(excel_serial_to_naive_datetime(2958466, 0), None);
    // The first representable day, and the one before it.
    assert_eq!(excel_serial_to_naive_datetime(-693593, 0), Some(ts(1, 1, 1, 0, 0, 0)));
    assert_eq!(excel_serial_to_naive_datetime(-693594, 0), None);
    // Far out of range on either side.
    assert_eq!(excel_serial_to_naive_datetime(i64::MAX, 0), None);
    assert_eq!(excel_serial_to_naive_datetime(i64::MIN, 0), None);
}

#[test]
fn encode_known_timestamp() {
    let t = ts(2023, 3, 15, 12, 0, 0);
    assert_eq!(naive_datetime_to_excel_serial(&t), (45000, 43200));
}

#[test]
fn round_trip_keeps_timestamp() {
    for serial in [0.0, 0.25, 1.0, 45000.5, 36585.999988425926, -1.5, 2958465.0] {
        let (d, s) = split_serial(serial);
        let decoded = excel_serial_to_naive_datetime(d, s).unwrap();
        let (d2, s2) = naive_datetime_to_excel_serial(&decoded);
        assert!(0 <= s2 && s2 < 86400);
        let again = excel_serial_to_naive_datetime(d2, s2).unwrap();
        assert_eq!(decoded, again);
    }
}
