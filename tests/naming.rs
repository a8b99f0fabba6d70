use photo_sort::naming::{candidate_name, slot_name};
use photo_sort::timestamp::Timestamp;

fn ts(year: u32, month: u32, day: u32, hour: u32, minute: u32, second: u32) -> Timestamp {
    Timestamp { year, month, day, hour, minute, second }
}

#[test]
fn candidate_name_pads_fields() {
    assert_eq!(candidate_name(&ts(2020, 1, 2, 3, 4, 5)), "2020-01-02_03_04_05");
}

#[test]
fn candidate_name_keeps_wide_fields() {
    assert_eq!(candidate_name(&ts(2019, 12, 31, 23, 59, 58)), "2019-12-31_23_59_58");
    assert_eq!(candidate_name(&ts(12, 13, 0, 99, 100, 7)), "0012-13-00_99_100_07");
    assert_eq!(candidate_name(&ts(123456, 0, 0, 0, 0, 0)), "123456-00-00_00_00_00");
}

#[test]
fn same_time_same_name() {
    assert_eq!(candidate_name(&ts(2001, 2, 3, 4, 5, 6)), candidate_name(&ts(2001, 2, 3, 4, 5, 6)));
}

#[test]
fn slot_names() {
    assert_eq!(slot_name("2020-01-02_03_04_05", 0), "2020-01-02_03_04_05.jpeg");
    assert_eq!(slot_name("2020-01-02_03_04_05", 1), "2020-01-02_03_04_05-1.jpeg");
    assert_eq!(slot_name("x", 10), "x-10.jpeg");
    assert_eq!(slot_name("x", 907), "x-907.jpeg");
    assert_eq!(slot_name("", u64::MAX), "-18446744073709551615.jpeg");
}
