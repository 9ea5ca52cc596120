//! The metadata-extraction rules: which EXIF entries feed which catalog
//! fields, how the capture date is reformatted, and how GPS coordinates in
//! degrees/minutes/seconds become signed decimal degrees.
//!
//! Every failure mode degrades to an absent field; extraction itself never
//! fails.
use vstd::prelude::*;
use crate::strutil::{is_prefix_of, trim_spec, parse_i32_spec};

verus! {

/// The EXIF tags the extractor reads; everything else is ignored.
#[derive(Clone, Copy, PartialEq, Eq, Structural, Debug)]
pub enum ExifTagKind {
    DateTimeOriginal,
    DateTime,
    Make,
    Model,
    LensModel,
    IsoSpeedRatings,
    ExposureTime,
    FNumber,
    FocalLength,
    GpsLatitude,
    GpsLatitudeRef,
    GpsLongitude,
    GpsLongitudeRef,
    Unrecognised,
}

/// An unsigned rational, as EXIF encodes GPS components.
#[derive(Clone, Copy, PartialEq, Eq, Structural, Debug)]
pub struct URational {
    pub num: u32,
    pub den: u32,
}

/// One decoded EXIF entry, reduced to plain values: the tag, its rendered
/// text, and its rational components (present only for rational-valued tags).
#[derive(Clone, Debug)]
pub struct RawExifEntry {
    pub tag: ExifTagKind,
    pub text: String,
    pub rationals: Vec<URational>,
}

/// The view of an entry: the same data over character sequences.
pub struct RawExifEntryView {
    pub tag: ExifTagKind,
    pub text: Seq<char>,
    pub rationals: Seq<URational>,
}

impl View for RawExifEntry {
    type V = RawExifEntryView;

    open spec fn view(&self) -> RawExifEntryView {
        RawExifEntryView { tag: self.tag, text: self.text@, rationals: self.rationals@ }
    }
}

/// A GPS coordinate in decimal degrees, held exactly as a rational number.
/// The denominator is always positive; the sign lives in the numerator.
#[derive(Clone, Copy, PartialEq, Eq, Structural, Debug)]
pub struct GpsCoord {
    pub num: i128,
    pub den: i128,
}

/// The metadata record one file yields: every field optional except that
/// extraction never fails as a whole.
#[derive(Clone, Debug)]
pub struct ExifData {
    pub taken_at: Option<String>,
    pub camera_make: Option<String>,
    pub camera_model: Option<String>,
    pub lens: Option<String>,
    pub iso: Option<i32>,
    pub shutter_speed: Option<String>,
    pub aperture: Option<String>,
    pub focal_length: Option<String>,
    pub gps_lat: Option<GpsCoord>,
    pub gps_lon: Option<GpsCoord>,
}

/// The view of `ExifData` over character sequences.
#[verifier::ext_equal]
pub struct ExifDataView {
    pub taken_at: Option<Seq<char>>,
    pub camera_make: Option<Seq<char>>,
    pub camera_model: Option<Seq<char>>,
    pub lens: Option<Seq<char>>,
    pub iso: Option<i32>,
    pub shutter_speed: Option<Seq<char>>,
    pub aperture: Option<Seq<char>>,
    pub focal_length: Option<Seq<char>>,
    pub gps_lat: Option<GpsCoord>,
    pub gps_lon: Option<GpsCoord>,
}

pub open spec fn opt_view(o: Option<String>) -> Option<Seq<char>> {
    match o {
        Option::Some(s) => Option::Some(s@),
        Option::None => Option::None,
    }
}

impl View for ExifData {
    type V = ExifDataView;

    open spec fn view(&self) -> ExifDataView {
        ExifDataView {
            taken_at: opt_view(self.taken_at),
            camera_make: opt_view(self.camera_make),
            camera_model: opt_view(self.camera_model),
            lens: opt_view(self.lens),
            iso: self.iso,
            shutter_speed: opt_view(self.shutter_speed),
            aperture: opt_view(self.aperture),
            focal_length: opt_view(self.focal_length),
            gps_lat: self.gps_lat,
            gps_lon: self.gps_lon,
        }
    }
}

/// Date separators are normalised from `:` to `-`.
pub open spec fn dash_for_colon(c: char) -> char {
    if c == ':' {
        '-'
    } else {
        c
    }
}

/// The capture-date rule: the first ten characters of the EXIF datetime,
/// colons replaced by dashes, extended to midnight UTC; text shorter than a
/// date yields nothing.
pub open spec fn taken_at_spec(s: Seq<char>) -> Option<Seq<char>> {
    if s.len() >= 10 {
        Option::Some(s.take(10).map_values(|c: char| dash_for_colon(c)) + "T00:00:00Z"@)
    } else {
        Option::None
    }
}

/// Reformats an EXIF datetime (`YYYY:MM:DD hh:mm:ss`) as an ISO-8601 date
/// at midnight UTC.
pub fn exif_datetime_to_iso(s: &str) -> (r: Option<String>)
    ensures
        opt_view(r) == taken_at_spec(s@),
{
    let len = s.unicode_len();
    if len < 10 {
        return None;
    }
    let mut out = String::new();
    let mut i: usize = 0;
    while i < 10
        invariant
            0 <= i <= 10,
            s@.len() >= 10,
            out@ == s@.take(10).map_values(|c: char| dash_for_colon(c)).take(i as int),
        decreases 10 - i,
    {
        let c = s.get_char(i);
        let mapped: char = if c == ':' {
            '-'
        } else {
            c
        };
        crate::strutil::push_char(&mut out, mapped);
        proof {
            let m = s@.take(10).map_values(|c: char| dash_for_colon(c));
            assert(m.take(i + 1) =~= m.take(i as int).push(m[i as int]));
        }
        i = i + 1;
    }
    proof {
        let m = s@.take(10).map_values(|c: char| dash_for_colon(c));
        assert(m.take(10) =~= m);
    }
    let out = out.concat("T00:00:00Z");
    Some(out)
}

/// Removes every leading `f/` from an aperture rendering, as the
/// normalisation rule does before adding the prefix back once.
pub open spec fn strip_f_prefix(s: Seq<char>) -> Seq<char>
    decreases s.len(),
{
    if is_prefix_of("f/"@, s) && s.len() >= 2 {
        strip_f_prefix(s.subrange(2, s.len() as int))
    } else {
        s
    }
}

/// The normalised aperture text: `f/` followed by the value with any
/// existing `f/` prefixes removed.
pub open spec fn aperture_spec(s: Seq<char>) -> Seq<char> {
    "f/"@ + strip_f_prefix(s)
}

/// Normalises an aperture rendering to a single `f/` prefix.
pub fn normalize_aperture(s: &str) -> (r: String)
    ensures
        r@ == aperture_spec(s@),
{
    let mut rest: &str = s;
    let mut len = rest.unicode_len();
    while len >= 2 && crate::strutil::str_starts_with(rest, "f/")
        invariant
            len == rest@.len(),
            strip_f_prefix(rest@) == strip_f_prefix(s@),
        decreases len,
    {
        proof {
            reveal_strlit("f/");
        }
        rest = rest.substring_char(2, len);
        len = len - 2;
    }
    proof {
        reveal_strlit("f/");
        assert(!(is_prefix_of("f/"@, rest@) && rest@.len() >= 2));
        assert(strip_f_prefix(rest@) == rest@);
    }
    let mut out: String = "f/".to_owned();
    out.append(rest);
    out
}

/// The decimal-degree value of a degrees/minutes/seconds triple:
/// `deg + min/60 + sec/3600` over the common denominator, negated for the
/// southern or western hemisphere.
pub open spec fn gps_decimal(deg: URational, min: URational, sec: URational, negate: bool) -> GpsCoord {
    let unsigned = 3600 * (deg.num as i128) * (min.den as i128) * (sec.den as i128) + 60 * (
    min.num as i128) * (deg.den as i128) * (sec.den as i128) + (sec.num as i128) * (
    deg.den as i128) * (min.den as i128);
    GpsCoord {
        num: (if negate {
            -unsigned
        } else {
            unsigned
        }) as i128,
        den: (3600 * (deg.den as i128) * (min.den as i128) * (sec.den as i128)) as i128,
    }
}

/// Converts a GPS coordinate in degrees, minutes and seconds (each an
/// unsigned rational) to decimal degrees: `deg + min/60 + sec/3600`, negated
/// for the southern or western hemisphere. The result is exact: numerator
/// and denominator of the sum over the common denominator.
pub fn gps_dms_to_decimal(deg: URational, min: URational, sec: URational, negate: bool) -> (r:
    GpsCoord)
    requires
        deg.den != 0,
        min.den != 0,
        sec.den != 0,
    ensures
        r == gps_decimal(deg, min, sec, negate),
        r.den > 0,
{
    let a = scaled_product(3600, deg.num as i128, min.den as i128, sec.den as i128);
    let b = scaled_product(60, min.num as i128, deg.den as i128, sec.den as i128);
    let c = scaled_product(1, sec.num as i128, deg.den as i128, min.den as i128);
    let den = scaled_product(3600, deg.den as i128, min.den as i128, sec.den as i128);
    let unsigned: i128 = a + b + c;
    let num: i128 = if negate {
        -unsigned
    } else {
        unsigned
    };
    proof {
        assert(den > 0) by (nonlinear_arith)
            requires
                den == 3600 * (deg.den as i128) * (min.den as i128) * (sec.den as i128),
                deg.den as i128 > 0,
                min.den as i128 > 0,
                sec.den as i128 > 0,
        ;
    }
    GpsCoord { num, den }
}

/// `c * x * y * z` for a small scale and three 32-bit factors, within `i128`.
fn scaled_product(c: i128, x: i128, y: i128, z: i128) -> (r: i128)
    requires
        1 <= c <= 3600,
        0 <= x <= 0xffff_ffff,
        0 <= y <= 0xffff_ffff,
        0 <= z <= 0xffff_ffff,
    ensures
        r == c * x * y * z,
        0 <= r <= 0xe0f_ffff_d5d0_0000_2a2f_ffff_f1f0,
{
    proof {
        assert(0 <= c * x <= 0xe0f_ffff_f1f0) by (nonlinear_arith)
            requires
                1 <= c <= 3600,
                0 <= x <= 0xffff_ffff,
        ;
        assert(0 <= c * x * y <= 0xe0f_ffff_e3e0_0000_0e10) by (nonlinear_arith)
            requires
                0 <= c * x <= 0xe0f_ffff_f1f0,
                0 <= y <= 0xffff_ffff,
        ;
        assert(0 <= c * x * y * z <= 0xe0f_ffff_d5d0_0000_2a2f_ffff_f1f0) by (nonlinear_arith)
            requires
                0 <= c * x * y <= 0xe0f_ffff_e3e0_0000_0e10,
                0 <= z <= 0xffff_ffff,
        ;
    }
    c * x * y * z
}

/// The running state of an entry scan: the fields gathered so far and the
/// raw GPS components awaiting conversion.
#[verifier::ext_equal]
pub struct ScanAcc {
    pub data: ExifDataView,
    pub lat_vals: Option<(URational, URational, URational)>,
    pub lat_ref: Option<Seq<char>>,
    pub lon_vals: Option<(URational, URational, URational)>,
    pub lon_ref: Option<Seq<char>>,
}

pub open spec fn empty_exif_view() -> ExifDataView {
    ExifDataView {
        taken_at: Option::None,
        camera_make: Option::None,
        camera_model: Option::None,
        lens: Option::None,
        iso: Option::None,
        shutter_speed: Option::None,
        aperture: Option::None,
        focal_length: Option::None,
        gps_lat: Option::None,
        gps_lon: Option::None,
    }
}

pub open spec fn initial_acc() -> ScanAcc {
    ScanAcc {
        data: empty_exif_view(),
        lat_vals: Option::None,
        lat_ref: Option::None,
        lon_vals: Option::None,
        lon_ref: Option::None,
    }
}

/// How one entry updates the scan state. The capture date keeps the first
/// valid value; every other field keeps the last non-empty one.
pub open spec fn scan_step(acc: ScanAcc, e: RawExifEntryView) -> ScanAcc {
    match e.tag {
        ExifTagKind::DateTimeOriginal | ExifTagKind::DateTime => {
            if acc.data.taken_at is None && taken_at_spec(e.text) is Some {
                ScanAcc {
                    data: ExifDataView { taken_at: taken_at_spec(e.text), ..acc.data },
                    ..acc
                }
            } else {
                acc
            }
        },
        ExifTagKind::Make => {
            let v = trim_spec(e.text);
            if v.len() > 0 {
                ScanAcc { data: ExifDataView { camera_make: Option::Some(v), ..acc.data }, ..acc }
            } else {
                acc
            }
        },
        ExifTagKind::Model => {
            let v = trim_spec(e.text);
            if v.len() > 0 {
                ScanAcc { data: ExifDataView { camera_model: Option::Some(v), ..acc.data }, ..acc }
            } else {
                acc
            }
        },
        ExifTagKind::LensModel => {
            let v = trim_spec(e.text);
            if v.len() > 0 {
                ScanAcc { data: ExifDataView { lens: Option::Some(v), ..acc.data }, ..acc }
            } else {
                acc
            }
        },
        ExifTagKind::IsoSpeedRatings => {
            let v = trim_spec(e.text);
            match parse_i32_spec(v) {
                Option::Some(iso) => ScanAcc {
                    data: ExifDataView { iso: Option::Some(iso), ..acc.data },
                    ..acc
                },
                Option::None => acc,
            }
        },
        ExifTagKind::ExposureTime => {
            let v = trim_spec(e.text);
            if v.len() > 0 {
                ScanAcc {
                    data: ExifDataView { shutter_speed: Option::Some(v), ..acc.data },
                    ..acc
                }
            } else {
                acc
            }
        },
        ExifTagKind::FNumber => {
            let v = trim_spec(e.text);
            if v.len() > 0 {
                ScanAcc {
                    data: ExifDataView { aperture: Option::Some(aperture_spec(v)), ..acc.data },
                    ..acc
                }
            } else {
                acc
            }
        },
        ExifTagKind::FocalLength => {
            let v = trim_spec(e.text);
            if v.len() > 0 {
                ScanAcc { data: ExifDataView { focal_length: Option::Some(v), ..acc.data }, ..acc }
            } else {
                acc
            }
        },
        ExifTagKind::GpsLatitude => {
            if e.rationals.len() == 3 {
                ScanAcc {
                    lat_vals: Option::Some((e.rationals[0], e.rationals[1], e.rationals[2])),
                    ..acc
                }
            } else {
                acc
            }
        },
        ExifTagKind::GpsLatitudeRef => ScanAcc {
            lat_ref: Option::Some(trim_spec(e.text)),
            ..acc
        },
        ExifTagKind::GpsLongitude => {
            if e.rationals.len() == 3 {
                ScanAcc {
                    lon_vals: Option::Some((e.rationals[0], e.rationals[1], e.rationals[2])),
                    ..acc
                }
            } else {
                acc
            }
        },
        ExifTagKind::GpsLongitudeRef => ScanAcc {
            lon_ref: Option::Some(trim_spec(e.text)),
            ..acc
        },
        ExifTagKind::Unrecognised => acc,
    }
}

/// The scan state after reading every entry, in order.
pub open spec fn scan_fold(entries: Seq<RawExifEntryView>) -> ScanAcc
    decreases entries.len(),
{
    if entries.len() == 0 {
        initial_acc()
    } else {
        scan_step(scan_fold(entries.drop_last()), entries.last())
    }
}

/// Whether a gathered GPS triple is usable: present, with sound
/// denominators.
pub open spec fn triple_ok(vals: Option<(URational, URational, URational)>) -> bool {
    match vals {
        Option::Some((d, m, s)) => d.den != 0 && m.den != 0 && s.den != 0,
        Option::None => false,
    }
}

/// The decimal value of a gathered GPS triple.
pub open spec fn gps_of(vals: Option<(URational, URational, URational)>, negate: bool) -> Option<
    GpsCoord,
> {
    match vals {
        Option::Some((d, m, s)) => {
            if d.den != 0 && m.den != 0 && s.den != 0 {
                Option::Some(gps_decimal(d, m, s, negate))
            } else {
                Option::None
            }
        },
        Option::None => Option::None,
    }
}

/// The complete extraction rule: the scan fold, with the GPS triples
/// converted at the end (latitude negated for `S`, longitude for `W`).
/// A position needs both coordinates: unless both triples are present and
/// sound, partial data yields no GPS fields at all.
pub open spec fn extract_spec(entries: Seq<RawExifEntryView>) -> ExifDataView {
    let acc = scan_fold(entries);
    if triple_ok(acc.lat_vals) && triple_ok(acc.lon_vals) {
        ExifDataView {
            gps_lat: gps_of(acc.lat_vals, acc.lat_ref == Option::Some("S"@)),
            gps_lon: gps_of(acc.lon_vals, acc.lon_ref == Option::Some("W"@)),
            ..acc.data
        }
    } else {
        ExifDataView { gps_lat: Option::None, gps_lon: Option::None, ..acc.data }
    }
}

/// The views of a vector of entries.
pub open spec fn entry_views(entries: Seq<RawExifEntry>) -> Seq<RawExifEntryView> {
    entries.map_values(|e: RawExifEntry| e@)
}

/// The scan state assembled from the extractor's working values.
pub open spec fn acc_of(
    data: ExifDataView,
    lat_vals: Option<(URational, URational, URational)>,
    lat_ref: Option<Seq<char>>,
    lon_vals: Option<(URational, URational, URational)>,
    lon_ref: Option<Seq<char>>,
) -> ScanAcc {
    ScanAcc { data, lat_vals, lat_ref, lon_vals, lon_ref }
}

/// Runs the extraction rule over decoded entries, in order: the first valid
/// capture date wins, later camera fields overwrite earlier ones, and the
/// GPS triples are converted to decimal degrees at the end.
pub fn extract_exif(entries: &Vec<RawExifEntry>) -> (r: ExifData)
    ensures
        r@ == extract_spec(entry_views(entries@)),
{
    let ghost views = entry_views(entries@);
    let mut data = ExifData {
        taken_at: None,
        camera_make: None,
        camera_model: None,
        lens: None,
        iso: None,
        shutter_speed: None,
        aperture: None,
        focal_length: None,
        gps_lat: None,
        gps_lon: None,
    };
    let mut lat_vals: Option<(URational, URational, URational)> = None;
    let mut lat_ref: Option<String> = None;
    let mut lon_vals: Option<(URational, URational, URational)> = None;
    let mut lon_ref: Option<String> = None;
    let mut i: usize = 0;
    while i < entries.len()
        invariant
            0 <= i <= entries@.len(),
            views == entry_views(entries@),
            views.len() == entries@.len(),
            data.gps_lat is None && data.gps_lon is None,
            acc_of(
                data@,
                lat_vals,
                match lat_ref {
                    Option::Some(ref s) => Option::Some(s@),
                    Option::None => Option::None,
                },
                lon_vals,
                match lon_ref {
                    Option::Some(ref s) => Option::Some(s@),
                    Option::None => Option::None,
                },
            ) == scan_fold(views.take(i as int)),
        decreases entries@.len() - i,
    {
        let ghost pre = views.take(i as int);
        let ghost prev_acc = scan_fold(pre);
        let entry = &entries[i];
        proof {
            assert(views[i as int] == entries@[i as int]@);
        }
        match entry.tag {
            ExifTagKind::DateTimeOriginal | ExifTagKind::DateTime => {
                if data.taken_at.is_none() {
                    match exif_datetime_to_iso(entry.text.as_str()) {
                        Some(t) => {
                            data.taken_at = Some(t);
                        },
                        None => {},
                    }
                }
            },
            ExifTagKind::Make => {
                let v = crate::strutil::trim(entry.text.as_str());
                if v.unicode_len() > 0 {
                    data.camera_make = Some(v.to_owned());
                }
            },
            ExifTagKind::Model => {
                let v = crate::strutil::trim(entry.text.as_str());
                if v.unicode_len() > 0 {
                    data.camera_model = Some(v.to_owned());
                }
            },
            ExifTagKind::LensModel => {
                let v = crate::strutil::trim(entry.text.as_str());
                if v.unicode_len() > 0 {
                    data.lens = Some(v.to_owned());
                }
            },
            ExifTagKind::IsoSpeedRatings => {
                let v = crate::strutil::trim(entry.text.as_str());
                match crate::strutil::parse_i32(v) {
                    Some(iso) => {
                        data.iso = Some(iso);
                    },
                    None => {},
                }
            },
            ExifTagKind::ExposureTime => {
                let v = crate::strutil::trim(entry.text.as_str());
                if v.unicode_len() > 0 {
                    data.shutter_speed = Some(v.to_owned());
                }
            },
            ExifTagKind::FNumber => {
                let v = crate::strutil::trim(entry.text.as_str());
                if v.unicode_len() > 0 {
                    data.aperture = Some(normalize_aperture(v));
                }
            },
            ExifTagKind::FocalLength => {
                let v = crate::strutil::trim(entry.text.as_str());
                if v.unicode_len() > 0 {
                    data.focal_length = Some(v.to_owned());
                }
            },
            ExifTagKind::GpsLatitude => {
                if entry.rationals.len() == 3 {
                    lat_vals = Some((entry.rationals[0], entry.rationals[1], entry.rationals[2]));
                }
            },
            ExifTagKind::GpsLatitudeRef => {
                let v = crate::strutil::trim(entry.text.as_str());
                lat_ref = Some(v.to_owned());
            },
            ExifTagKind::GpsLongitude => {
                if entry.rationals.len() == 3 {
                    lon_vals = Some((entry.rationals[0], entry.rationals[1], entry.rationals[2]));
                }
            },
            ExifTagKind::GpsLongitudeRef => {
                let v = crate::strutil::trim(entry.text.as_str());
                lon_ref = Some(v.to_owned());
            },
            ExifTagKind::Unrecognised => {},
        }
        proof {
            let post = views.take(i + 1);
            assert(post.drop_last() =~= pre);
            assert(post.last() == views[i as int]);
            assert(scan_fold(post) == scan_step(prev_acc, views[i as int]));
            assert(acc_of(
                data@,
                lat_vals,
                match lat_ref {
                    Option::Some(ref s) => Option::Some(s@),
                    Option::None => Option::None,
                },
                lon_vals,
                match lon_ref {
                    Option::Some(ref s) => Option::Some(s@),
                    Option::None => Option::None,
                },
            ) =~~= scan_step(prev_acc, views[i as int]));
        }
        i = i + 1;
    }
    proof {
        assert(views.take(i as int) =~= views);
    }
    let negate_lat = match &lat_ref {
        Some(r) => crate::strutil::str_eq(r.as_str(), "S"),
        None => false,
    };
    let negate_lon = match &lon_ref {
        Some(r) => crate::strutil::str_eq(r.as_str(), "W"),
        None => false,
    };
    let lat_usable = match lat_vals {
        Some((d, m, s)) => d.den != 0 && m.den != 0 && s.den != 0,
        None => false,
    };
    let lon_usable = match lon_vals {
        Some((d, m, s)) => d.den != 0 && m.den != 0 && s.den != 0,
        None => false,
    };
    if lat_usable && lon_usable {
        data.gps_lat = match lat_vals {
            Some((d, m, s)) => Some(gps_dms_to_decimal(d, m, s, negate_lat)),
            None => None,
        };
        data.gps_lon = match lon_vals {
            Some((d, m, s)) => Some(gps_dms_to_decimal(d, m, s, negate_lon)),
            None => None,
        };
    }
    proof {
        assert(data@ =~~= extract_spec(views));
    }
    data
}

} // verus!
