use photo_sort::timestamp::{parse_timestamp, Timestamp};

fn ts(year: u32, month: u32, day: u32, hour: u32, minute: u32, second: u32) -> Timestamp {
    Timestamp { year, month, day, hour, minute, second }
}

#[test]
fn parses_plain_field() {
    assert_eq!(parse_timestamp(b"2020:01:02 03:04:05"), Some(ts(2020, 1, 2, 3, 4, 5)));
}

#[test]
fn parses_leftmost_match_in_text() {
    assert_eq!(
        parse_timestamp(b"taken 1999:12:31 23:59:59 or 2000:01:01 00:00:00"),
        Some(ts(1999, 12, 31, 23, 59, 59))
    );
    assert_eq!(parse_timestamp(b"12020:01:02 03:04:05x"), Some(ts(2020, 1, 2, 3, 4, 5)));
}

#[test]
fn accepts_out_of_range_fields() {
    assert_eq!(parse_timestamp(b"2020:13:40 25:61:99"), Some(ts(2020, 13, 40, 25, 61, 99)));
}

#[test]
fn rejects_other_shapes() {
    assert_eq!(parse_timestamp(b""), None);
    assert_eq!(parse_timestamp(b"2020:01:02 03:04:0"), None);
    assert_eq!(parse_timestamp(b"2020-01-02 03:04:05"), None);
    assert_eq!(parse_timestamp(b"2020:01:02T03:04:05"), None);
    assert_eq!(parse_timestamp(b"2020:0a:02 03:04:05"), None);
}
