use photo_organizer::media::{ImgInfo, ReadError};
use photo_organizer::group::build_imgs_groups;
use photo_organizer::rename::{reorganize_images, Step};
use photo_organizer::scan::{scan_candidates, scan_for_images, DirEntry, Reading, Scan, Skipped};
use photo_organizer::timestamp::CaptureTime;

fn entry(name: &str, is_dir: Option<bool>) -> DirEntry {
    DirEntry { file_name: String::from(name), is_dir }
}

fn reading(name: &str, date: Option<&str>, model: Option<&str>, sidecar_exists: bool) -> Reading {
    Reading {
        file_name: String::from(name),
        date_tag: date.map(String::from),
        model_tag: model.map(String::from),
        sidecar_exists,
    }
}

#[test]
fn candidates_are_the_plain_visible_files() {
    let entries = vec![
        entry("DSC001.NEF", Some(false)),
        entry(".hidden.nef", Some(false)),
        entry("DSC001.NEF.xmp", Some(false)),
        entry("album", Some(true)),
        entry("DSC001.JPG", Some(false)),
        entry("broken", None),
        entry("notes.txt", Some(false)),
        entry("old.XMP", Some(false)),
    ];
    assert_eq!(scan_candidates(&entries), vec!["DSC001.NEF", "DSC001.JPG", "notes.txt"]);
}

#[test]
fn no_entries_give_no_candidates() {
    assert_eq!(scan_candidates(&Vec::new()), Vec::<String>::new());
}

#[test]
fn readings_are_sorted_into_files_and_skips() {
    let readings = vec![
        reading("a.nef", Some("2024:01:01 12:00:00"), Some("D750"), true),
        reading("b.nef", None, Some("D750"), false),
        reading("c.jpg", Some("2024:01:02 08:30:15"), None, false),
        reading("d.jpg", Some("not a time"), Some("D750"), true),
    ];
    let scan = scan_for_images("/photos", &readings);
    assert_eq!(
        scan,
        Scan {
            imgs: vec![
                ImgInfo {
                    dir: String::from("/photos"),
                    file_name: String::from("a.nef"),
                    sidecar_name: Some(String::from("a.nef.xmp")),
                    date: CaptureTime { year: 2024, month: 1, day: 1, hour: 12, minute: 0, second: 0, nanosecond: 0 },
                    model: String::from("D750"),
                },
                ImgInfo {
                    dir: String::from("/photos"),
                    file_name: String::from("c.jpg"),
                    sidecar_name: None,
                    date: CaptureTime { year: 2024, month: 1, day: 2, hour: 8, minute: 30, second: 15, nanosecond: 0 },
                    model: String::new(),
                },
            ],
            skipped: vec![
                Skipped { file_name: String::from("b.nef"), reason: ReadError::MissingTimestamp },
                Skipped { file_name: String::from("d.jpg"), reason: ReadError::UnparseableTimestamp },
            ],
        }
    );
}

#[test]
fn a_file_without_readable_time_is_warned_of_once_and_never_renamed() {
    let readings = vec![
        reading("good.nef", Some("2024:01:01 12:00:00"), Some("M"), false),
        reading("bad.nef", Some("2024:99:99 12:00:00"), Some("M"), true),
    ];
    let scan = scan_for_images("/p", &readings);
    assert_eq!(scan.skipped.len(), 1);
    assert_eq!(scan.skipped[0].file_name, "bad.nef");
    assert_eq!(scan.imgs.len(), 1);
    let groups = build_imgs_groups(scan.imgs);
    assert_eq!(groups.len(), 1);
    let steps = reorganize_images(&groups, "", false, None).unwrap();
    assert_eq!(
        steps,
        vec![Step::Rename {
            dir: String::from("/p"),
            from: String::from("good.nef"),
            to: String::from("1 2024-01-01 12-00-00 M.nef"),
            apply: true,
        }]
    );
}

#[test]
fn no_readings_give_an_empty_scan() {
    assert_eq!(scan_for_images("/p", &Vec::new()), Scan { imgs: Vec::new(), skipped: Vec::new() });
}
