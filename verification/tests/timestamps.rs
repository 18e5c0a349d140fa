use photo_organizer::media::{find_sidecar_path, img_from_parsed, read_img, ImgInfo, ReadError};
use photo_organizer::names::ImgRole;
use photo_organizer::timestamp::{capture_time_stamp, parse_capture_time, CaptureTime};

fn noon() -> CaptureTime {
    CaptureTime { year: 2024, month: 1, day: 1, hour: 12, minute: 0, second: 0, nanosecond: 0 }
}

#[test]
fn tag_text_parses_to_its_fields() {
    assert_eq!(parse_capture_time("2024:01:01 12:00:00"), Some(noon()));
    assert_eq!(
        parse_capture_time("2019:12:31 23:59:58"),
        Some(CaptureTime { year: 2019, month: 12, day: 31, hour: 23, minute: 59, second: 58, nanosecond: 0 })
    );
}

#[test]
fn tag_text_that_is_no_timestamp_is_refused() {
    assert_eq!(parse_capture_time(""), None);
    assert_eq!(parse_capture_time("yesterday"), None);
    assert_eq!(parse_capture_time("2024:13:01 12:00:00"), None);
    assert_eq!(parse_capture_time("2024:02:30 12:00:00"), None);
    assert_eq!(parse_capture_time("2024:01:01 25:00:00"), None);
    assert_eq!(parse_capture_time("2024-01-01 12:00:00"), None);
}

#[test]
fn stamp_is_written_with_dashes() {
    assert_eq!(capture_time_stamp(&noon()), Some(String::from("2024-01-01 12-00-00")));
    let late = CaptureTime { year: 1999, month: 12, day: 31, hour: 23, minute: 59, second: 59, nanosecond: 0 };
    assert_eq!(capture_time_stamp(&late), Some(String::from("1999-12-31 23-59-59")));
}

#[test]
fn stamp_of_fields_that_name_no_time_is_refused() {
    let no_day = CaptureTime { year: 2023, month: 2, day: 30, hour: 0, minute: 0, second: 0, nanosecond: 0 };
    assert_eq!(capture_time_stamp(&no_day), None);
    let no_hour = CaptureTime { year: 2023, month: 2, day: 3, hour: 24, minute: 0, second: 0, nanosecond: 0 };
    assert_eq!(capture_time_stamp(&no_hour), None);
}

#[test]
fn parsing_and_writing_are_no_identity() {
    let t = parse_capture_time("2021:07:04 08:09:10").unwrap();
    assert_eq!(capture_time_stamp(&t).unwrap(), "2021-07-04 08-09-10");
}

#[test]
fn earlier_times_precede_later_ones() {
    let a = noon();
    let mut b = noon();
    b.second = 1;
    assert!(a.is_before(&b));
    assert!(!b.is_before(&a));
    assert!(!a.is_before(&a));
    let c = CaptureTime { year: 2023, month: 12, day: 31, hour: 23, minute: 59, second: 59, nanosecond: 0 };
    assert!(c.is_before(&a));
    let d = CaptureTime { year: 2024, month: 1, day: 2, hour: 0, minute: 0, second: 0, nanosecond: 0 };
    assert!(a.is_before(&d));
    assert!(!d.is_before(&a));
}

#[test]
fn read_img_builds_the_media_file() {
    let img = read_img("/photos", "DSC001.NEF", Some("2024:01:01 12:00:00"), Some("NIKON D750"), true).unwrap();
    assert_eq!(
        img,
        ImgInfo {
            dir: String::from("/photos"),
            file_name: String::from("DSC001.NEF"),
            sidecar_name: Some(String::from("DSC001.NEF.xmp")),
            date: noon(),
            model: String::from("NIKON D750"),
        }
    );
    assert_eq!(img.base_path(), "/photos/DSC001");
    assert_eq!(img.role(), Some(ImgRole::Raw));
}

#[test]
fn read_img_takes_a_missing_model_as_empty() {
    let img = read_img("/photos", "DSC001.JPG", Some("2024:01:01 12:00:00"), None, false).unwrap();
    assert_eq!(img.model, "");
    assert_eq!(img.sidecar_name, None);
    assert_eq!(img.role(), Some(ImgRole::CameraJPG));
}

#[test]
fn read_img_refuses_a_file_without_capture_time() {
    assert_eq!(read_img("/photos", "DSC001.NEF", None, Some("X"), false), Err(ReadError::MissingTimestamp));
}

#[test]
fn read_img_refuses_a_capture_time_that_does_not_parse() {
    assert_eq!(
        read_img("/photos", "DSC001.NEF", Some("0000:00:00 00:00:00"), Some("X"), false),
        Err(ReadError::UnparseableTimestamp)
    );
    assert_eq!(read_img("/photos", "DSC001.NEF", Some(""), None, true), Err(ReadError::UnparseableTimestamp));
}

#[test]
fn img_from_parsed_goes_by_the_parsed_time() {
    assert_eq!(
        img_from_parsed("d", "a.nef", Some("whatever"), None, None, false),
        Err(ReadError::UnparseableTimestamp)
    );
    assert_eq!(img_from_parsed("d", "a.nef", None, Some(noon()), None, false), Err(ReadError::MissingTimestamp));
    let img = img_from_parsed("d", "a.nef", Some("whatever"), Some(noon()), Some("M"), false).unwrap();
    assert_eq!(img.date, noon());
    assert_eq!(img.model, "M");
    assert_eq!(img.dir, "d");
    assert_eq!(img.file_name, "a.nef");
}

#[test]
fn sidecar_is_named_only_where_it_exists() {
    assert_eq!(find_sidecar_path("a.nef", true), Some(String::from("a.nef.xmp")));
    assert_eq!(find_sidecar_path("a.nef", false), None);
}

#[test]
fn a_leap_second_is_read_and_written_as_second_sixty() {
    let leap = parse_capture_time("2016:12:31 23:59:60").unwrap();
    assert_eq!(
        leap,
        CaptureTime { year: 2016, month: 12, day: 31, hour: 23, minute: 59, second: 59, nanosecond: 1_000_000_000 }
    );
    assert_eq!(capture_time_stamp(&leap), Some(String::from("2016-12-31 23-59-60")));
    let just_before = parse_capture_time("2016:12:31 23:59:59").unwrap();
    assert_eq!(just_before.nanosecond, 0);
    assert!(just_before.is_before(&leap));
    assert!(!leap.is_before(&just_before));
    assert_eq!(capture_time_stamp(&just_before), Some(String::from("2016-12-31 23-59-59")));
}

#[test]
fn a_fraction_beyond_the_second_is_refused_outside_a_leap_second() {
    let odd = CaptureTime { year: 2016, month: 12, day: 31, hour: 23, minute: 59, second: 58, nanosecond: 1_000_000_000 };
    assert_eq!(capture_time_stamp(&odd), None);
}
