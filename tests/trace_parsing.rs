use dash_to_map::text::{frame_file_name, parse_i32_field, parse_u32_field, trip_dir_name};
use dash_to_map::trace::{parse_coordinate, parse_samples, parse_trips, TraceError};

fn chars(s: &str) -> Vec<char> {
    s.chars().collect()
}

fn coordinate(s: &str) -> Option<i64> {
    let c = chars(s);
    parse_coordinate(&c, 0, c.len())
}

const TWO_FIXES: &str = "0,A,10.0,20.0,0,0,0,0,0,0,0,0,0\n5,A,10.001,20.001,0,0,0,0,0,0,0,0,0";

#[test]
fn reads_two_records() {
    let samples = parse_samples(TWO_FIXES).unwrap();
    assert_eq!(samples.len(), 2);
    assert_eq!(samples[0].timestamp, 0);
    assert_eq!(samples[0].latitude, 100_000_000);
    assert_eq!(samples[0].longitude, 200_000_000);
    assert!(samples[0].position_valid);
    assert_eq!(samples[0].fix_letter, "A");
    assert_eq!(samples[1].timestamp, 5);
    assert_eq!(samples[1].latitude, 100_010_000);
    assert_eq!(samples[1].longitude, 200_010_000);
}

#[test]
fn reads_auxiliary_fields_in_order() {
    let samples = parse_samples("7,V,1.5,-2.25,1,2,3,4,5,6,7,8,-9,extra").unwrap();
    assert_eq!(samples[0].auxiliary, [1, 2, 3, 4, 5, 6, 7, 8, -9]);
    assert_eq!(samples[0].fix_letter, "V");
    assert_eq!(samples[0].latitude, 15_000_000);
    assert_eq!(samples[0].longitude, -22_500_000);
}

#[test]
fn rejects_a_short_record() {
    let r = parse_samples("1,A,2,3\n");
    assert_eq!(r.err(), Some(TraceError::TooFewFields { line: 1 }));
}

#[test]
fn rejects_a_bad_timestamp() {
    let r = parse_samples("0,A,1,1,0,0,0,0,0,0,0,0,0\nx,A,1,1,0,0,0,0,0,0,0,0,0");
    assert_eq!(r.err(), Some(TraceError::BadInteger { line: 2, field: 0 }));
}

#[test]
fn rejects_a_bad_auxiliary_field() {
    let r = parse_trips("0,A,1,1,0,0,0,q,0,0,0,0,0");
    assert_eq!(r.err(), Some(TraceError::BadInteger { line: 1, field: 7 }));
}

#[test]
fn unreadable_coordinates_default_to_zero_and_are_flagged() {
    let samples = parse_samples("3,A,abc,20.0,0,0,0,0,0,0,0,0,0").unwrap();
    assert_eq!(samples[0].latitude, 0);
    assert_eq!(samples[0].longitude, 200_000_000);
    assert!(!samples[0].position_valid);
}

#[test]
fn equator_fix_is_valid() {
    let samples = parse_samples("3,A,0.0,0.0,0,0,0,0,0,0,0,0,0").unwrap();
    assert_eq!(samples[0].latitude, 0);
    assert!(samples[0].position_valid);
}

#[test]
fn out_of_range_latitude_is_flagged() {
    let samples = parse_samples("3,A,91.0,0.0,0,0,0,0,0,0,0,0,0").unwrap();
    assert_eq!(samples[0].latitude, 910_000_000);
    assert!(!samples[0].position_valid);
}

#[test]
fn window_mode_skips_blank_lines() {
    let text = "1,A,1,1,0,0,0,0,0,0,0,0,0\n\n2,A,1,1,0,0,0,0,0,0,0,0,0\n";
    let samples = parse_samples(text).unwrap();
    assert_eq!(samples.len(), 2);
    assert_eq!(samples[1].timestamp, 2);
}

#[test]
fn blank_line_starts_a_new_trip() {
    let text = "1,A,1,1,0,0,0,0,0,0,0,0,0\n\n2,A,1,1,0,0,0,0,0,0,0,0,0\n3,A,1,1,0,0,0,0,0,0,0,0,0\n";
    let trips = parse_trips(text).unwrap();
    assert_eq!(trips.len(), 2);
    assert_eq!(trips[0].len(), 1);
    assert_eq!(trips[1].len(), 2);
    assert_eq!(trips[1][0].timestamp, 2);
}

#[test]
fn repeated_blank_lines_make_no_empty_trip() {
    let text = "\n\n1,A,1,1,0,0,0,0,0,0,0,0,0\n \n\r\n\n2,A,1,1,0,0,0,0,0,0,0,0,0\n\n";
    let trips = parse_trips(text).unwrap();
    assert_eq!(trips.len(), 2);
    assert_eq!(trips[0][0].timestamp, 1);
    assert_eq!(trips[1][0].timestamp, 2);
}

#[test]
fn empty_trace_has_no_trip() {
    assert_eq!(parse_trips("").unwrap().len(), 0);
    assert_eq!(parse_samples("").unwrap().len(), 0);
}

#[test]
fn coordinate_forms() {
    assert_eq!(coordinate("-33.8688"), Some(-338_688_000));
    assert_eq!(coordinate("+1.5"), Some(15_000_000));
    assert_eq!(coordinate("5."), Some(50_000_000));
    assert_eq!(coordinate(".5"), Some(5_000_000));
    assert_eq!(coordinate("12.123456789"), Some(121_234_567));
    assert_eq!(coordinate("999.9999999"), Some(9_999_999_999));
    assert_eq!(coordinate("1000"), None);
    assert_eq!(coordinate("."), None);
    assert_eq!(coordinate(""), None);
    assert_eq!(coordinate("1.2.3"), None);
    assert_eq!(coordinate("1e5"), None);
}

#[test]
fn integer_fields() {
    let p = |s: &str| {
        let c = chars(s);
        parse_u32_field(&c, 0, c.len())
    };
    let q = |s: &str| {
        let c = chars(s);
        parse_i32_field(&c, 0, c.len())
    };
    assert_eq!(p("4294967295"), Some(u32::MAX));
    assert_eq!(p("4294967296"), None);
    assert_eq!(p("+7"), Some(7));
    assert_eq!(p("-7"), None);
    assert_eq!(p("+"), None);
    assert_eq!(p(""), None);
    assert_eq!(q("-2147483648"), Some(i32::MIN));
    assert_eq!(q("2147483647"), Some(i32::MAX));
    assert_eq!(q("2147483648"), None);
    assert_eq!(q("-"), None);
    assert_eq!(q("0012"), Some(12));
}

#[test]
fn frame_names_are_zero_padded() {
    assert_eq!(frame_file_name(0), "000000.png");
    assert_eq!(frame_file_name(1), "000001.png");
    assert_eq!(frame_file_name(42), "000042.png");
    assert_eq!(frame_file_name(999_999), "999999.png");
    assert_eq!(frame_file_name(1_234_567), "1234567.png");
}

#[test]
fn trip_directories_are_numbered() {
    assert_eq!(trip_dir_name(1), "trip001");
    assert_eq!(trip_dir_name(42), "trip042");
    assert_eq!(trip_dir_name(1234), "trip1234");
}
