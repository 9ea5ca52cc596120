use photo_catalog::scan::MediaKind;
use photo_catalog::scan::ci_contains_str;
use photo_catalog::scan::file_name_of;
use photo_catalog::scan::folder_rel_of;
use photo_catalog::scan::is_candidate_path;
use photo_catalog::scan::media_type_from_path;
use photo_catalog::scan::replace_file_name;
use photo_catalog::strutil::parse_i32;
use photo_catalog::strutil::str_eq;
use photo_catalog::strutil::trim;

#[test]
fn classifies_photo_extensions_case_insensitively() {
    assert_eq!(media_type_from_path("/pics/a.jpg"), MediaKind::Photo);
    assert_eq!(media_type_from_path("/pics/a.JPG"), MediaKind::Photo);
    assert_eq!(media_type_from_path("/pics/a.JpEg"), MediaKind::Photo);
    assert_eq!(media_type_from_path("b.png"), MediaKind::Photo);
    assert_eq!(media_type_from_path("c.HEIC"), MediaKind::Photo);
    assert_eq!(media_type_from_path("d.cr2"), MediaKind::Photo);
}

#[test]
fn classifies_video_extensions_case_insensitively() {
    assert_eq!(media_type_from_path("clip.mp4"), MediaKind::Video);
    assert_eq!(media_type_from_path("clip.MOV"), MediaKind::Video);
    assert_eq!(media_type_from_path("clip.WebM"), MediaKind::Video);
    assert_eq!(media_type_from_path("clip.3gp"), MediaKind::Video);
}

#[test]
fn excludes_unsupported_files() {
    assert_eq!(media_type_from_path("notes.txt"), MediaKind::Other);
    assert_eq!(media_type_from_path("archive.tar.gz"), MediaKind::Other);
    assert_eq!(media_type_from_path("no_extension"), MediaKind::Other);
    assert_eq!(media_type_from_path(".hidden"), MediaKind::Other);
    assert_eq!(media_type_from_path("dir.jpg/file"), MediaKind::Other);
    assert!(!is_candidate_path("x/readme.md"));
    assert!(is_candidate_path("x/photo.TIFF"));
    assert!(is_candidate_path("x/video.mkv"));
}

#[test]
fn derives_file_name_and_folder() {
    assert_eq!(file_name_of("/root/sub/a.jpg"), "a.jpg");
    assert_eq!(file_name_of("plain.jpg"), "plain.jpg");
    assert_eq!(folder_rel_of("/root/sub/a.jpg", "/root"), "sub");
    assert_eq!(folder_rel_of("/root/sub/deep/a.jpg", "/root"), "sub/deep");
    assert_eq!(folder_rel_of("/root/a.jpg", "/root"), "");
    assert_eq!(folder_rel_of("/elsewhere/a.jpg", "/root"), "");
}

#[test]
fn rebuilds_path_on_rename() {
    assert_eq!(replace_file_name("/root/sub/a.jpg", "b.jpg"), "/root/sub/b.jpg");
    assert_eq!(replace_file_name("a.jpg", "b.jpg"), "b.jpg");
}

#[test]
fn substring_match_is_literal() {
    assert!(ci_contains_str("price50%off.jpg", "50%"));
    assert!(!ci_contains_str("price505off.jpg", "50%"));
    assert!(ci_contains_str("HELLO.jpg", "hello"));
    assert!(ci_contains_str("anything", ""));
    assert!(!ci_contains_str("ab", "abc"));
}

#[test]
fn trims_ascii_whitespace() {
    assert_eq!(trim("  Canon \t"), "Canon");
    assert_eq!(trim(""), "");
    assert_eq!(trim("   "), "");
    assert_eq!(trim("x"), "x");
    assert!(str_eq(trim("\r\nab\r\n"), "ab"));
}

#[test]
fn parses_integers_like_std() {
    assert_eq!(parse_i32("100"), Some(100));
    assert_eq!(parse_i32("-42"), Some(-42));
    assert_eq!(parse_i32("+7"), Some(7));
    assert_eq!(parse_i32("0000123"), Some(123));
    assert_eq!(parse_i32("2147483647"), Some(2147483647));
    assert_eq!(parse_i32("2147483648"), None);
    assert_eq!(parse_i32("-2147483648"), Some(i32::MIN));
    assert_eq!(parse_i32("-2147483649"), None);
    assert_eq!(parse_i32(""), None);
    assert_eq!(parse_i32("-"), None);
    assert_eq!(parse_i32("12a"), None);
    assert_eq!(parse_i32("ISO 100"), None);
}
