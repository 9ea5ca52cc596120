use photo_catalog::exif::ExifTagKind;
use photo_catalog::exif::RawExifEntry;
use photo_catalog::exif::URational;
use photo_catalog::exif::exif_datetime_to_iso;
use photo_catalog::exif::extract_exif;
use photo_catalog::exif::gps_dms_to_decimal;
use photo_catalog::exif::normalize_aperture;

fn text_entry(tag: ExifTagKind, text: &str) -> RawExifEntry {
    RawExifEntry { tag, text: text.to_owned(), rationals: Vec::new() }
}

fn rational_entry(tag: ExifTagKind, parts: Vec<(u32, u32)>) -> RawExifEntry {
    let mut rationals = Vec::new();
    for (num, den) in parts {
        rationals.push(URational { num, den });
    }
    RawExifEntry { tag, text: String::new(), rationals }
}

#[test]
fn reformats_exif_datetime() {
    assert_eq!(
        exif_datetime_to_iso("2023:01:15 10:30:00").unwrap(),
        "2023-01-15T00:00:00Z"
    );
    assert_eq!(
        exif_datetime_to_iso("2023-01-15").unwrap(),
        "2023-01-15T00:00:00Z"
    );
    assert_eq!(exif_datetime_to_iso("short"), None);
}

#[test]
fn normalizes_aperture_prefix() {
    assert_eq!(normalize_aperture("2.8"), "f/2.8");
    assert_eq!(normalize_aperture("f/2.8"), "f/2.8");
    assert_eq!(normalize_aperture("f/f/4"), "f/4");
}

#[test]
fn gps_conversion_matches_decimal_degrees() {
    let south = gps_dms_to_decimal(
        URational { num: 10, den: 1 },
        URational { num: 30, den: 1 },
        URational { num: 0, den: 1 },
        true,
    );
    assert_eq!(south.num as f64 / south.den as f64, -10.5);
    let north = gps_dms_to_decimal(
        URational { num: 10, den: 1 },
        URational { num: 30, den: 1 },
        URational { num: 0, den: 1 },
        false,
    );
    assert_eq!(north.num as f64 / north.den as f64, 10.5);
}

#[test]
fn extracts_fields_from_entries() {
    let entries = vec![
        text_entry(ExifTagKind::DateTimeOriginal, "2020:06:01 09:00:00"),
        text_entry(ExifTagKind::DateTime, "2021:01:01 00:00:00"),
        text_entry(ExifTagKind::Make, "  Canon "),
        text_entry(ExifTagKind::Model, "EOS R5"),
        text_entry(ExifTagKind::IsoSpeedRatings, " 400 "),
        text_entry(ExifTagKind::ExposureTime, "1/250"),
        text_entry(ExifTagKind::FNumber, "2.8"),
        text_entry(ExifTagKind::FocalLength, "50 mm"),
        rational_entry(ExifTagKind::GpsLatitude, vec![(10, 1), (30, 1), (0, 1)]),
        text_entry(ExifTagKind::GpsLatitudeRef, "S"),
        rational_entry(ExifTagKind::GpsLongitude, vec![(20, 1), (0, 1), (0, 1)]),
        text_entry(ExifTagKind::GpsLongitudeRef, "E"),
    ];
    let data = extract_exif(&entries);
    // The first valid capture date wins.
    assert_eq!(data.taken_at.unwrap(), "2020-06-01T00:00:00Z");
    assert_eq!(data.camera_make.unwrap(), "Canon");
    assert_eq!(data.camera_model.unwrap(), "EOS R5");
    assert_eq!(data.iso, Some(400));
    assert_eq!(data.shutter_speed.unwrap(), "1/250");
    assert_eq!(data.aperture.unwrap(), "f/2.8");
    assert_eq!(data.focal_length.unwrap(), "50 mm");
    let lat = data.gps_lat.unwrap();
    assert_eq!(lat.num as f64 / lat.den as f64, -10.5);
    let lon = data.gps_lon.unwrap();
    assert_eq!(lon.num as f64 / lon.den as f64, 20.0);
}

#[test]
fn missing_or_partial_data_degrades_to_absent_fields() {
    let none = extract_exif(&Vec::new());
    assert!(none.taken_at.is_none());
    assert!(none.camera_make.is_none());
    assert!(none.gps_lat.is_none());

    // A latitude triple without two-component longitude data, and an
    // unparseable ISO value, yield nothing for those fields.
    let entries = vec![
        rational_entry(ExifTagKind::GpsLongitude, vec![(20, 1), (0, 1)]),
        text_entry(ExifTagKind::IsoSpeedRatings, "fast"),
        text_entry(ExifTagKind::Make, "   "),
    ];
    let data = extract_exif(&entries);
    assert!(data.gps_lon.is_none());
    assert!(data.iso.is_none());
    assert!(data.camera_make.is_none());

    // A zero denominator is corrupt data, not a crash.
    let corrupt = vec![
        rational_entry(ExifTagKind::GpsLatitude, vec![(10, 0), (30, 1), (0, 1)]),
        text_entry(ExifTagKind::GpsLatitudeRef, "N"),
    ];
    let data = extract_exif(&corrupt);
    assert!(data.gps_lat.is_none());

    // A position needs both coordinates: a latitude alone yields neither.
    let lat_only = vec![
        rational_entry(ExifTagKind::GpsLatitude, vec![(10, 1), (30, 1), (0, 1)]),
        text_entry(ExifTagKind::GpsLatitudeRef, "N"),
    ];
    let data = extract_exif(&lat_only);
    assert!(data.gps_lat.is_none());
    assert!(data.gps_lon.is_none());
}
