use photo_organizer::names::{file_stem, file_suffix, is_skipped, role, sidecar_name, ImgRole};
use photo_organizer::text::{chars_of, decimal_string, join_path, str_le, zero_padded_string};

#[test]
fn role_follows_the_extension_without_regard_to_case() {
    assert_eq!(role("DSC001.NEF"), Some(ImgRole::Raw));
    assert_eq!(role("dsc001.nef"), Some(ImgRole::Raw));
    assert_eq!(role("shot.Raf"), Some(ImgRole::Raw));
    assert_eq!(role("DSC001.JPG"), Some(ImgRole::CameraJPG));
    assert_eq!(role("dsc001.jPg"), Some(ImgRole::CameraJPG));
}

#[test]
fn role_is_none_for_other_names() {
    assert_eq!(role("clip.mov"), None);
    assert_eq!(role("picture.jpeg"), None);
    assert_eq!(role("README"), None);
    assert_eq!(role(".nef"), None);
    assert_eq!(role("trailing."), None);
    assert_eq!(role(""), None);
}

#[test]
fn role_reads_the_last_extension_only() {
    assert_eq!(role("a.nef.jpg"), Some(ImgRole::CameraJPG));
    assert_eq!(role("a.jpg.txt"), None);
}

#[test]
fn stem_drops_the_last_extension() {
    assert_eq!(file_stem("DSC001.NEF"), "DSC001");
    assert_eq!(file_stem("a.b.c"), "a.b");
    assert_eq!(file_stem("noext"), "noext");
    assert_eq!(file_stem(".hidden"), ".hidden");
    assert_eq!(file_stem("dot."), "dot");
    assert_eq!(file_stem(""), "");
}

#[test]
fn scan_skips_hidden_entries_directories_and_sidecars() {
    assert!(is_skipped(".DS_Store", Some(false)));
    assert!(is_skipped("album", Some(true)));
    assert!(is_skipped("DSC001.NEF", None));
    assert!(is_skipped("DSC001.NEF.xmp", Some(false)));
    assert!(is_skipped("DSC001.NEF.XMP", Some(false)));
    assert!(is_skipped("", Some(false)));
}

#[test]
fn scan_keeps_plain_files() {
    assert!(!is_skipped("DSC001.NEF", Some(false)));
    assert!(!is_skipped("notes.txt", Some(false)));
    assert!(!is_skipped("xmp", Some(false)));
    assert!(!is_skipped("README", Some(false)));
}

#[test]
fn sidecar_name_appends_the_sidecar_extension() {
    assert_eq!(sidecar_name("IMG_0001.NEF"), "IMG_0001.NEF.xmp");
    assert_eq!(sidecar_name(""), ".xmp");
}

#[test]
fn suffix_of_a_picture_is_its_extension() {
    assert_eq!(file_suffix("IMG_0001.NEF"), ".NEF");
    assert_eq!(file_suffix("a.b.nef"), ".nef");
    assert_eq!(file_suffix("dsc.jpg"), ".jpg");
}

#[test]
fn suffix_of_a_sidecar_is_its_last_two_components() {
    assert_eq!(file_suffix("IMG_0001.NEF.xmp"), ".NEF.xmp");
    assert_eq!(file_suffix("IMG_0001.NEF.XMP"), ".NEF.XMP");
    assert_eq!(file_suffix("a.b.jpg.xmp"), ".jpg.xmp");
}

#[test]
fn suffix_of_a_name_of_one_component_is_that_component() {
    assert_eq!(file_suffix("README"), ".README");
    assert_eq!(file_suffix(""), ".");
    assert_eq!(file_suffix("xmp"), ".xmp");
}

#[test]
fn suffix_of_a_sidecar_of_two_components_is_the_whole_name() {
    assert_eq!(file_suffix("a.xmp"), ".a.xmp");
    assert_eq!(file_suffix("lonely.XMP"), ".lonely.XMP");
}

#[test]
fn suffix_of_a_name_that_ends_in_a_dot_is_the_dot() {
    assert_eq!(file_suffix("tail."), ".");
    assert_eq!(file_suffix("a.b."), ".");
    assert_eq!(file_suffix("a..xmp"), "..xmp");
}

#[test]
fn decimal_numerals() {
    assert_eq!(decimal_string(0), "0");
    assert_eq!(decimal_string(7), "7");
    assert_eq!(decimal_string(10), "10");
    assert_eq!(decimal_string(1234567890), "1234567890");
}

#[test]
fn zero_padding_fills_up_to_the_width() {
    assert_eq!(zero_padded_string(7, 4), "0007");
    assert_eq!(zero_padded_string(10, 2), "10");
    assert_eq!(zero_padded_string(0, 3), "000");
    assert_eq!(zero_padded_string(42, 8), "00000042");
}

#[test]
fn zero_padding_never_cuts_a_numeral() {
    assert_eq!(zero_padded_string(12345, 3), "12345");
    assert_eq!(zero_padded_string(10, 1), "10");
    assert_eq!(zero_padded_string(0, 0), "0");
}

#[test]
fn joining_adds_one_separator() {
    assert_eq!(join_path("", "a.nef"), "a.nef");
    assert_eq!(join_path("/photos", "a.nef"), "/photos/a.nef");
    assert_eq!(join_path("/photos/", "a.nef"), "/photos/a.nef");
    assert_eq!(join_path("/", "a.nef"), "/a.nef");
    assert_eq!(join_path("rel/dir", ""), "rel/dir/");
}

#[test]
fn string_order_is_that_of_str() {
    let words = vec!["", "a", "ab", "b", "B", "a b", "a-b", "z", "\u{e9}", "10", "9", "DSC001", "DSC0010"];
    for x in words.iter() {
        for y in words.iter() {
            assert_eq!(str_le(x, y), x <= y, "{:?} against {:?}", x, y);
        }
    }
}

#[test]
fn chars_of_keeps_every_character() {
    assert_eq!(chars_of("a\u{e9}b"), vec!['a', '\u{e9}', 'b']);
    assert_eq!(chars_of(""), Vec::<char>::new());
}
