use photo_catalog::catalog::Catalog;
use photo_catalog::catalog::CatalogError;
use photo_catalog::catalog::GetPhotosParams;
use photo_catalog::exif::ExifData;
use photo_catalog::scan::MediaKind;
use photo_catalog::scan::ScannedFile;
use photo_catalog::scan::build_scanned_file;
use photo_catalog::scan::is_candidate_path;
use photo_catalog::catalog::missing_photo_columns;
use photo_catalog::exif::ExifTagKind;
use photo_catalog::exif::RawExifEntry;
use photo_catalog::exif::URational;
use photo_catalog::exif::extract_exif;

fn no_exif() -> ExifData {
    ExifData {
        taken_at: None,
        camera_make: None,
        camera_model: None,
        lens: None,
        iso: None,
        shutter_speed: None,
        aperture: None,
        focal_length: None,
        gps_lat: None,
        gps_lon: None,
    }
}

fn file_at(path: &str, taken_at: Option<&str>, modified_at: &str) -> ScannedFile {
    let mut exif = no_exif();
    exif.taken_at = taken_at.map(|t| t.to_owned());
    build_scanned_file(path, "/lib", 1000, modified_at.to_owned(), exif, Some(100), Some(80))
}

fn params() -> GetPhotosParams {
    GetPhotosParams { limit: None, offset: None, year: None, month: None, folder: None, media_type: None }
}

#[test]
fn library_upsert_reuses_id_and_refreshes_timestamp() {
    let mut c = Catalog::new();
    let a = c.get_or_create_library("/lib", "2024-01-01T00:00:00Z");
    let b = c.get_or_create_library("/other", "2024-01-02T00:00:00Z");
    assert_ne!(a, b);
    let again = c.get_or_create_library("/lib", "2024-03-01T00:00:00Z");
    assert_eq!(a, again);
    assert_eq!(c.libraries.len(), 2);
    assert_eq!(c.libraries[0].created_at, "2024-03-01T00:00:00Z");
}

#[test]
fn insert_at_distinct_paths_never_collides() {
    let mut c = Catalog::new();
    let lib = c.get_or_create_library("/lib", "2024-01-01T00:00:00Z");
    c.insert_photo(lib, &file_at("/lib/a.jpg", None, "2024-01-01T10:00:00Z"));
    c.insert_photo(lib, &file_at("/lib/b.jpg", None, "2024-01-01T11:00:00Z"));
    assert_eq!(c.photos.len(), 2);
    assert_ne!(c.photos[0].id, c.photos[1].id);
}

#[test]
fn reindexing_same_path_overwrites_without_duplicating() {
    let mut c = Catalog::new();
    let lib = c.get_or_create_library("/lib", "2024-01-01T00:00:00Z");
    let f = file_at("/lib/a.jpg", Some("2023-05-01T00:00:00Z"), "2024-01-01T10:00:00Z");
    c.insert_photo(lib, &f);
    let first_id = c.photos[0].id;
    c.insert_photo(lib, &f);
    assert_eq!(c.photos.len(), 1);
    assert_eq!(c.photos[0].id, first_id);
    assert_eq!(c.photos[0].path, "/lib/a.jpg");
    assert_eq!(c.photos[0].taken_at.as_deref(), Some("2023-05-01T00:00:00Z"));
    assert_eq!(c.photos[0].modified_at, "2024-01-01T10:00:00Z");
}

#[test]
fn year_filter_and_default_order() {
    let mut c = Catalog::new();
    let lib = c.get_or_create_library("/lib", "2024-01-01T00:00:00Z");
    c.insert_photo(lib, &file_at("/lib/b.jpg", Some("2023-06-01T00:00:00Z"), "2024-01-01T00:00:00Z"));
    c.insert_photo(lib, &file_at("/lib/a.jpg", Some("2023-06-01T00:00:00Z"), "2024-01-01T00:00:00Z"));
    c.insert_photo(lib, &file_at("/lib/c.jpg", Some("2023-09-01T00:00:00Z"), "2024-01-01T00:00:00Z"));
    // No capture time: the effective timestamp falls back to modified_at,
    // so build_scanned_file always carries one; give this row a 2022 one.
    c.insert_photo(lib, &file_at("/lib/d.jpg", Some("2022-01-01T00:00:00Z"), "2022-01-01T00:00:00Z"));

    let mut p = params();
    p.year = Some(2023);
    let rows = c.get_photos(lib, &p);
    assert_eq!(rows.len(), 3);
    // Newest effective timestamp first; ties broken by path ascending.
    assert_eq!(rows[0].path, "/lib/c.jpg");
    assert_eq!(rows[1].path, "/lib/a.jpg");
    assert_eq!(rows[2].path, "/lib/b.jpg");

    let all = c.get_photos(lib, &params());
    assert_eq!(all.len(), 4);
    assert_eq!(all[3].path, "/lib/d.jpg");

    let mut p2 = params();
    p2.year = Some(2023);
    p2.month = Some(6);
    let june = c.get_photos(lib, &p2);
    assert_eq!(june.len(), 2);
}

#[test]
fn folder_filter_matches_exact_and_subfolders() {
    let mut c = Catalog::new();
    let lib = c.get_or_create_library("/lib", "2024-01-01T00:00:00Z");
    c.insert_photo(lib, &file_at("/lib/trips/a.jpg", None, "2024-01-01T00:00:00Z"));
    c.insert_photo(lib, &file_at("/lib/trips/rome/b.jpg", None, "2024-01-02T00:00:00Z"));
    c.insert_photo(lib, &file_at("/lib/home/c.jpg", None, "2024-01-03T00:00:00Z"));
    let mut p = params();
    p.folder = Some("trips".to_owned());
    let rows = c.get_photos(lib, &p);
    assert_eq!(rows.len(), 2);
}

#[test]
fn pagination_and_limit_cap() {
    let mut c = Catalog::new();
    let lib = c.get_or_create_library("/lib", "2024-01-01T00:00:00Z");
    for i in 0..5 {
        let path = format!("/lib/p{}.jpg", i);
        c.insert_photo(lib, &file_at(&path, Some("2023-01-01T00:00:00Z"), "2023-01-01T00:00:00Z"));
    }
    let mut p = params();
    p.limit = Some(2);
    p.offset = Some(1);
    let rows = c.get_photos(lib, &p);
    assert_eq!(rows.len(), 2);
    assert_eq!(rows[0].path, "/lib/p1.jpg");
    assert_eq!(rows[1].path, "/lib/p2.jpg");
    let mut p2 = params();
    p2.offset = Some(100);
    assert_eq!(c.get_photos(lib, &p2).len(), 0);
}

#[test]
fn search_treats_wildcards_literally() {
    let mut c = Catalog::new();
    let lib = c.get_or_create_library("/lib", "2024-01-01T00:00:00Z");
    c.insert_photo(lib, &file_at("/lib/price50%off.jpg", None, "2024-01-01T00:00:00Z"));
    c.insert_photo(lib, &file_at("/lib/price505off.jpg", None, "2024-01-02T00:00:00Z"));
    let rows = c.search_photos(lib, "50%", 100);
    assert_eq!(rows.len(), 1);
    assert_eq!(rows[0].path, "/lib/price50%off.jpg");
}

#[test]
fn search_is_case_insensitive_and_covers_tags() {
    let mut c = Catalog::new();
    let lib = c.get_or_create_library("/lib", "2024-01-01T00:00:00Z");
    c.insert_photo(lib, &file_at("/lib/IMG_0001.jpg", None, "2024-01-01T00:00:00Z"));
    c.insert_photo(lib, &file_at("/lib/other.jpg", None, "2024-01-02T00:00:00Z"));
    let rows = c.search_photos(lib, "img_", 100);
    assert_eq!(rows.len(), 1);

    let tag = c.create_tag("holiday", "#ff0000").unwrap();
    let id = c.photos[1].id;
    c.tag_photos(&vec![id], tag.id);
    let tagged = c.search_photos(lib, "holi", 100);
    assert_eq!(tagged.len(), 1);
    assert_eq!(tagged[0].path, "/lib/other.jpg");
}

#[test]
fn search_orders_by_capture_time_descending() {
    let mut c = Catalog::new();
    let lib = c.get_or_create_library("/lib", "2024-01-01T00:00:00Z");
    c.insert_photo(lib, &file_at("/lib/old.jpg", Some("2020-01-01T00:00:00Z"), "2024-01-01T00:00:00Z"));
    c.insert_photo(lib, &file_at("/lib/new.jpg", Some("2024-01-01T00:00:00Z"), "2024-01-01T00:00:00Z"));
    let rows = c.search_photos(lib, "jpg", 100);
    assert_eq!(rows.len(), 2);
    assert_eq!(rows[0].path, "/lib/new.jpg");
    assert_eq!(rows[1].path, "/lib/old.jpg");
}

#[test]
fn favorite_toggle_is_self_inverse() {
    let mut c = Catalog::new();
    let lib = c.get_or_create_library("/lib", "2024-01-01T00:00:00Z");
    c.insert_photo(lib, &file_at("/lib/a.jpg", None, "2024-01-01T00:00:00Z"));
    let id = c.photos[0].id;
    assert!(!c.photos[0].is_favorite);
    assert_eq!(c.toggle_favorite(id), Ok(true));
    assert!(c.photos[0].is_favorite);
    assert_eq!(c.toggle_favorite(id), Ok(false));
    assert!(!c.photos[0].is_favorite);
    assert_eq!(c.toggle_favorite(9999), Err(CatalogError::PhotoNotFound));
}

#[test]
fn soft_delete_hides_restore_recovers() {
    let mut c = Catalog::new();
    let lib = c.get_or_create_library("/lib", "2024-01-01T00:00:00Z");
    c.insert_photo(lib, &file_at("/lib/a.jpg", None, "2024-01-01T00:00:00Z"));
    let id = c.photos[0].id;
    c.soft_delete(&vec![id], "2024-02-01T00:00:00Z");
    assert_eq!(c.get_photos(lib, &params()).len(), 0);
    let by_id = c.get_photo_by_id(id).unwrap();
    assert!(by_id.is_deleted);
    assert_eq!(by_id.deleted_at.as_deref(), Some("2024-02-01T00:00:00Z"));
    assert_eq!(c.get_trash_count(), 1);
    c.restore_from_trash(&vec![id]);
    let restored = c.get_photo_by_id(id).unwrap();
    assert!(!restored.is_deleted);
    assert!(restored.deleted_at.is_none());
    assert_eq!(c.get_photos(lib, &params()).len(), 1);
}

#[test]
fn hard_delete_returns_paths_and_clears_associations() {
    let mut c = Catalog::new();
    let lib = c.get_or_create_library("/lib", "2024-01-01T00:00:00Z");
    c.insert_photo(lib, &file_at("/lib/a.jpg", None, "2024-01-01T00:00:00Z"));
    c.insert_photo(lib, &file_at("/lib/b.jpg", None, "2024-01-02T00:00:00Z"));
    let a = c.photos[0].id;
    let tag = c.create_tag("keep", "#fff").unwrap();
    c.tag_photos(&vec![a], tag.id);
    let album = c.create_album("trip", "2024-01-01T00:00:00Z");
    c.add_photos_to_album(album.id, &vec![a]);

    let paths = c.hard_delete_photos(&vec![a, 424242]);
    assert_eq!(paths, vec!["/lib/a.jpg".to_owned()]);
    assert_eq!(c.photos.len(), 1);
    assert!(c.photo_tags.is_empty());
    assert!(c.album_photos.is_empty());
    assert!(c.get_photo_by_id(a).is_none());
}

#[test]
fn rename_updates_path_and_detects_collisions() {
    let mut c = Catalog::new();
    let lib = c.get_or_create_library("/lib", "2024-01-01T00:00:00Z");
    c.insert_photo(lib, &file_at("/lib/sub/a.jpg", None, "2024-01-01T00:00:00Z"));
    c.insert_photo(lib, &file_at("/lib/sub/b.jpg", None, "2024-01-02T00:00:00Z"));
    let a = c.photos[0].id;
    let renamed = c.rename_photo(a, "c.jpg").unwrap();
    assert_eq!(renamed, "/lib/sub/c.jpg");
    assert_eq!(c.photos[0].filename, "c.jpg");
    assert_eq!(c.photos[0].path, "/lib/sub/c.jpg");
    assert_eq!(c.rename_photo(a, "b.jpg"), Err(CatalogError::PathTaken));
    assert_eq!(c.rename_photo(777, "x.jpg"), Err(CatalogError::PhotoNotFound));
}

#[test]
fn tags_are_unique_sorted_and_idempotent() {
    let mut c = Catalog::new();
    let lib = c.get_or_create_library("/lib", "2024-01-01T00:00:00Z");
    c.insert_photo(lib, &file_at("/lib/a.jpg", None, "2024-01-01T00:00:00Z"));
    let id = c.photos[0].id;
    let zoo = c.create_tag("zoo", "#1").unwrap();
    let _arch = c.create_tag("architecture", "#2").unwrap();
    assert_eq!(c.create_tag("zoo", "#3").unwrap_err(), CatalogError::TagNameTaken);
    let listed = c.get_tags();
    assert_eq!(listed.len(), 2);
    assert_eq!(listed[0].name, "architecture");
    assert_eq!(listed[1].name, "zoo");

    c.tag_photos(&vec![id], zoo.id);
    c.tag_photos(&vec![id, id], zoo.id);
    assert_eq!(c.photo_tags.len(), 1);
    let of_photo = c.get_tags_for_photo(id);
    assert_eq!(of_photo.len(), 1);
    assert_eq!(of_photo[0].name, "zoo");
    c.untag_photos(&vec![id], zoo.id);
    assert!(c.photo_tags.is_empty());
    c.delete_tag(zoo.id);
    assert_eq!(c.get_tags().len(), 1);
}

#[test]
fn album_ordering_is_stable_under_overlapping_adds() {
    let mut c = Catalog::new();
    let lib = c.get_or_create_library("/lib", "2024-01-01T00:00:00Z");
    c.insert_photo(lib, &file_at("/lib/a.jpg", None, "2024-01-01T00:00:00Z"));
    c.insert_photo(lib, &file_at("/lib/b.jpg", None, "2024-01-02T00:00:00Z"));
    c.insert_photo(lib, &file_at("/lib/c.jpg", None, "2024-01-03T00:00:00Z"));
    let a = c.photos[0].id;
    let b = c.photos[1].id;
    let x = c.photos[2].id;
    let album = c.create_album("trip", "2024-01-01T00:00:00Z");

    c.add_photos_to_album(album.id, &vec![a, b]);
    // Overlapping re-add: the existing rows keep their place, only the new
    // photo is appended, and no positions collide.
    c.add_photos_to_album(album.id, &vec![b, x]);
    assert_eq!(c.album_photos.len(), 3);
    for i in 0..c.album_photos.len() {
        for j in 0..c.album_photos.len() {
            if i != j {
                assert_ne!(c.album_photos[i].photo_id, c.album_photos[j].photo_id);
                assert_ne!(c.album_photos[i].position, c.album_photos[j].position);
            }
        }
    }
    let ordered = c.get_album_photos(album.id);
    assert_eq!(ordered.len(), 3);
    assert_eq!(ordered[0].path, "/lib/a.jpg");
    assert_eq!(ordered[1].path, "/lib/b.jpg");
    assert_eq!(ordered[2].path, "/lib/c.jpg");

    // Soft-deleted photos disappear from the album listing too.
    c.soft_delete(&vec![b], "2024-05-01T00:00:00Z");
    let remaining = c.get_album_photos(album.id);
    assert_eq!(remaining.len(), 2);
    assert_eq!(remaining[0].path, "/lib/a.jpg");
    assert_eq!(remaining[1].path, "/lib/c.jpg");

    let albums = c.get_albums();
    assert_eq!(albums.len(), 1);
    assert_eq!(albums[0].photo_count, 3);
    assert_eq!(albums[0].cover_path.as_deref(), Some("/lib/a.jpg"));

    c.remove_photos_from_album(album.id, &vec![a]);
    assert_eq!(c.album_photos.len(), 2);
    c.delete_album(album.id);
    assert!(c.album_photos.is_empty());
    assert!(c.get_albums().is_empty());
}

#[test]
fn facet_views_group_and_order() {
    let mut c = Catalog::new();
    let lib = c.get_or_create_library("/lib", "2024-01-01T00:00:00Z");
    c.insert_photo(lib, &file_at("/lib/a.jpg", Some("2023-06-01T00:00:00Z"), "2024-01-01T00:00:00Z"));
    c.insert_photo(lib, &file_at("/lib/b.jpg", Some("2023-02-01T00:00:00Z"), "2024-01-01T00:00:00Z"));
    c.insert_photo(lib, &file_at("/lib/c.jpg", Some("2021-01-01T00:00:00Z"), "2024-01-01T00:00:00Z"));
    c.insert_photo(lib, &file_at("/lib/v.mp4", None, "2024-01-01T00:00:00Z"));

    let years = c.get_years(lib);
    assert_eq!(years.len(), 3);
    assert_eq!((years[0].year, years[0].count), (2024, 1));
    assert_eq!((years[1].year, years[1].count), (2023, 2));
    assert_eq!((years[2].year, years[2].count), (2021, 1));

    let months = c.get_months(lib, 2023);
    assert_eq!(months.len(), 2);
    assert_eq!((months[0].month, months[0].count), (6, 1));
    assert_eq!((months[1].month, months[1].count), (2, 1));

    let kinds = c.get_media_type_counts(lib);
    assert_eq!(kinds.len(), 2);
    assert_eq!(kinds[0], (MediaKind::Photo, 3));
    assert_eq!(kinds[1], (MediaKind::Video, 1));

    let folders = c.get_folders_flat(lib);
    assert_eq!(folders.len(), 1);
    assert_eq!(folders[0], ("".to_owned(), 4));
}

#[test]
fn libraries_listing_and_cross_library_sources() {
    let mut c = Catalog::new();
    let one = c.get_or_create_library("/media/holidays", "2024-01-01T00:00:00Z");
    let two = c.get_or_create_library("/media/archive", "2024-01-01T00:00:00Z");
    c.insert_photo(one, &file_at("/media/holidays/a.jpg", None, "2024-01-01T00:00:00Z"));
    c.insert_photo(two, &file_at("/media/archive/b.jpg", None, "2024-01-02T00:00:00Z"));

    let libs = c.get_all_libraries();
    assert_eq!(libs.len(), 2);
    assert_eq!(libs[0].root_path, "/media/archive");
    assert_eq!(libs[0].name, "archive");
    assert_eq!(libs[0].photo_count, 1);
    assert_eq!(libs[1].name, "holidays");

    let rows = c.get_photos_all_libraries(&vec![one, two], 100, 0);
    assert_eq!(rows.len(), 2);
    assert_eq!(rows[0].source, "archive");
    assert_eq!(rows[1].source, "holidays");

    c.remove_library(one);
    assert_eq!(c.libraries.len(), 1);
    assert_eq!(c.photos.len(), 1);
}

#[test]
fn clearing_a_library_removes_only_its_photos() {
    let mut c = Catalog::new();
    let one = c.get_or_create_library("/a", "2024-01-01T00:00:00Z");
    let two = c.get_or_create_library("/b", "2024-01-01T00:00:00Z");
    c.insert_photo(one, &file_at("/a/x.jpg", None, "2024-01-01T00:00:00Z"));
    c.insert_photo(two, &file_at("/b/y.jpg", None, "2024-01-01T00:00:00Z"));
    assert_eq!(c.count_photos_for_library(one), 1);
    c.clear_photos_for_library(one);
    assert_eq!(c.count_photos_for_library(one), 0);
    assert_eq!(c.count_photos_for_library(two), 1);
}

#[test]
fn migration_reports_only_missing_columns() {
    let none_present: Vec<String> = vec!["id".to_owned(), "path".to_owned()];
    let missing = missing_photo_columns(&none_present);
    assert_eq!(missing.len(), 12);
    assert_eq!(missing[0], "is_favorite");

    let some_present = vec!["is_favorite".to_owned(), "gps_lat".to_owned(), "gps_lon".to_owned()];
    let rest = missing_photo_columns(&some_present);
    assert_eq!(rest.len(), 9);
    assert!(!rest.contains(&"is_favorite".to_owned()));

    let all: Vec<String> = missing_photo_columns(&Vec::new());
    let after = missing_photo_columns(&all);
    assert!(after.is_empty());
}

#[test]
fn end_to_end_indexing_of_a_small_library() {
    // Three photos and one unsupported file, as a scan would find them.
    let candidates = vec![
        "/lib/full.jpg",
        "/lib/plain.jpg",
        "/lib/corrupt.jpg",
        "/lib/notes.txt",
    ];
    let mut c = Catalog::new();
    let lib = c.get_or_create_library("/lib", "2024-01-01T00:00:00Z");
    for path in &candidates {
        if !is_candidate_path(path) {
            continue;
        }
        let exif = if *path == "/lib/full.jpg" {
            // Full EXIF with GPS.
            extract_exif(&vec![
                RawExifEntry {
                    tag: ExifTagKind::DateTimeOriginal,
                    text: "2023:04:05 12:00:00".to_owned(),
                    rationals: Vec::new(),
                },
                RawExifEntry {
                    tag: ExifTagKind::Make,
                    text: "Nikon".to_owned(),
                    rationals: Vec::new(),
                },
                RawExifEntry {
                    tag: ExifTagKind::GpsLatitude,
                    text: String::new(),
                    rationals: vec![
                        URational { num: 10, den: 1 },
                        URational { num: 30, den: 1 },
                        URational { num: 0, den: 1 },
                    ],
                },
                RawExifEntry {
                    tag: ExifTagKind::GpsLatitudeRef,
                    text: "S".to_owned(),
                    rationals: Vec::new(),
                },
                RawExifEntry {
                    tag: ExifTagKind::GpsLongitude,
                    text: String::new(),
                    rationals: vec![
                        URational { num: 20, den: 1 },
                        URational { num: 0, den: 1 },
                        URational { num: 0, den: 1 },
                    ],
                },
                RawExifEntry {
                    tag: ExifTagKind::GpsLongitudeRef,
                    text: "E".to_owned(),
                    rationals: Vec::new(),
                },
            ])
        } else {
            // No decodable EXIF: every field absent.
            extract_exif(&Vec::new())
        };
        let record = build_scanned_file(
            path,
            "/lib",
            2048,
            "2024-02-02T08:00:00Z".to_owned(),
            exif,
            Some(640),
            Some(480),
        );
        c.insert_photo(lib, &record);
    }

    // Exactly the three photos; the unsupported file is absent.
    assert_eq!(c.photos.len(), 3);
    assert!(c.photos.iter().all(|p| p.path != "/lib/notes.txt"));

    let full = c.photos.iter().find(|p| p.path == "/lib/full.jpg").unwrap();
    assert_eq!(full.taken_at.as_deref(), Some("2023-04-05T00:00:00Z"));
    assert_eq!(full.camera_make.as_deref(), Some("Nikon"));
    let lat = full.gps_lat.unwrap();
    assert_eq!(lat.num as f64 / lat.den as f64, -10.5);

    // The corrupt photo is present with absent EXIF fields but a valid
    // capture time derived from its modification time.
    let corrupt = c.photos.iter().find(|p| p.path == "/lib/corrupt.jpg").unwrap();
    assert!(corrupt.camera_make.is_none());
    assert!(corrupt.gps_lat.is_none());
    assert_eq!(corrupt.taken_at.as_deref(), Some("2024-02-02T08:00:00Z"));
    assert_eq!(corrupt.modified_at, "2024-02-02T08:00:00Z");
}
