use photo_organizer::group::{build_imgs_groups, group_in_order, sort_groups, ImgGroup};
use photo_organizer::media::ImgInfo;
use photo_organizer::timestamp::CaptureTime;

fn at(hour: u32, minute: u32) -> CaptureTime {
    CaptureTime { year: 2024, month: 5, day: 17, hour, minute, second: 0, nanosecond: 0 }
}

fn img(name: &str, date: CaptureTime) -> ImgInfo {
    ImgInfo {
        dir: String::from("/photos"),
        file_name: String::from(name),
        sidecar_name: None,
        date,
        model: String::from("X-T3"),
    }
}

fn base_paths(groups: &Vec<ImgGroup>) -> Vec<String> {
    groups.iter().map(|g| g.base_path()).collect()
}

#[test]
fn raw_and_preview_of_one_shot_make_one_group() {
    let groups = build_imgs_groups(vec![img("DSC001.NEF", at(9, 0)), img("DSC001.JPG", at(9, 0))]);
    assert_eq!(groups.len(), 1);
    assert_eq!(groups[0].raw, Some(img("DSC001.NEF", at(9, 0))));
    assert_eq!(groups[0].jpg, Some(img("DSC001.JPG", at(9, 0))));
    assert_eq!(groups[0].base_path(), "/photos/DSC001");
    assert_eq!(*groups[0].date(), at(9, 0));
}

#[test]
fn groups_come_out_by_capture_time() {
    let groups = build_imgs_groups(vec![
        img("c.nef", at(9, 30)),
        img("a.nef", at(11, 0)),
        img("b.jpg", at(8, 15)),
        img("d.raf", at(10, 0)),
    ]);
    assert_eq!(base_paths(&groups), vec!["/photos/b", "/photos/c", "/photos/d", "/photos/a"]);
}

#[test]
fn groups_of_one_time_come_out_by_base_path() {
    let groups = build_imgs_groups(vec![
        img("zeta.nef", at(9, 0)),
        img("alpha.nef", at(9, 0)),
        img("Beta.jpg", at(9, 0)),
        img("early.nef", at(8, 0)),
    ]);
    assert_eq!(base_paths(&groups), vec!["/photos/early", "/photos/Beta", "/photos/alpha", "/photos/zeta"]);
}

#[test]
fn the_order_does_not_depend_on_the_order_of_the_files() {
    let one = build_imgs_groups(vec![img("a.nef", at(9, 0)), img("b.nef", at(9, 0)), img("a.jpg", at(9, 0))]);
    let other = build_imgs_groups(vec![img("b.nef", at(9, 0)), img("a.jpg", at(9, 0)), img("a.nef", at(9, 0))]);
    assert_eq!(one, other);
    assert_eq!(base_paths(&one), vec!["/photos/a", "/photos/b"]);
}

#[test]
fn files_without_a_role_are_dropped() {
    let groups = build_imgs_groups(vec![img("clip.mov", at(9, 0)), img("README", at(9, 0)), img("a.nef", at(9, 0))]);
    assert_eq!(groups.len(), 1);
    assert_eq!(groups[0].raw, Some(img("a.nef", at(9, 0))));
    assert_eq!(groups[0].jpg, None);
}

#[test]
fn no_files_make_no_groups() {
    assert_eq!(build_imgs_groups(Vec::new()), Vec::<ImgGroup>::new());
    assert_eq!(build_imgs_groups(vec![img("notes.txt", at(1, 1))]), Vec::<ImgGroup>::new());
}

#[test]
fn the_first_of_two_files_with_one_role_stays() {
    let groups = build_imgs_groups(vec![
        img("shot.nef", at(9, 0)),
        img("shot.raf", at(10, 0)),
        img("shot.NEF", at(11, 0)),
        img("shot.jpg", at(12, 0)),
    ]);
    assert_eq!(groups.len(), 1);
    assert_eq!(groups[0].raw, Some(img("shot.nef", at(9, 0))));
    assert_eq!(groups[0].jpg, Some(img("shot.jpg", at(12, 0))));
}

#[test]
fn the_raw_capture_stands_for_its_group() {
    let groups = build_imgs_groups(vec![img("a.jpg", at(12, 0)), img("a.nef", at(9, 0)), img("b.nef", at(10, 0))]);
    assert_eq!(base_paths(&groups), vec!["/photos/a", "/photos/b"]);
    assert_eq!(groups[0].first_img().file_name, "a.nef");
    assert_eq!(*groups[0].date(), at(9, 0));
}

#[test]
fn a_preview_alone_stands_for_its_group() {
    let groups = build_imgs_groups(vec![img("a.jpg", at(12, 0))]);
    assert_eq!(groups[0].first_img().file_name, "a.jpg");
    assert_eq!(*groups[0].date(), at(12, 0));
}

#[test]
fn base_paths_are_compared_exactly() {
    let groups = build_imgs_groups(vec![img("dsc1.nef", at(9, 0)), img("DSC1.jpg", at(9, 0))]);
    assert_eq!(base_paths(&groups), vec!["/photos/DSC1", "/photos/dsc1"]);
}

#[test]
fn files_of_different_directories_do_not_meet() {
    let mut far = img("a.jpg", at(9, 0));
    far.dir = String::from("/other");
    let groups = build_imgs_groups(vec![img("a.nef", at(9, 0)), far]);
    assert_eq!(base_paths(&groups), vec!["/other/a", "/photos/a"]);
}

#[test]
fn in_order_goes_by_time_then_base_path() {
    let early = ImgGroup { raw: Some(img("z.nef", at(8, 0))), jpg: None };
    let late = ImgGroup { raw: None, jpg: Some(img("a.jpg", at(9, 0))) };
    let late_b = ImgGroup { raw: Some(img("b.nef", at(9, 0))), jpg: None };
    assert!(group_in_order(&early, &late));
    assert!(!group_in_order(&late, &early));
    assert!(group_in_order(&late, &late_b));
    assert!(!group_in_order(&late_b, &late));
    assert!(group_in_order(&late, &late));
}

#[test]
fn sorting_keeps_every_group() {
    let a = ImgGroup { raw: Some(img("a.nef", at(9, 0))), jpg: None };
    let b = ImgGroup { raw: Some(img("b.nef", at(8, 0))), jpg: None };
    let c = ImgGroup { raw: None, jpg: Some(img("c.jpg", at(8, 0))) };
    let sorted = sort_groups(vec![a.clone(), c.clone(), b.clone(), a.clone()]);
    assert_eq!(sorted, vec![b, c, a.clone(), a]);
}
