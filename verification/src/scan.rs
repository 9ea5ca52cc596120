//! Media-file classification and path derivation for the directory scanner
//! and the metadata extractor.
//!
//! A candidate file is recognised by its extension alone, case-insensitively,
//! against a fixed allow-list of photo and video extensions. Paths use `/` as
//! the separator; the extension is the part of the final path component after
//! its last dot, except that a leading dot (a hidden file) does not begin an
//! extension.
use vstd::prelude::*;
use crate::strutil::is_prefix_of;
use crate::exif::ExifData;
use crate::exif::GpsCoord;
use crate::exif::opt_view;

verus! {

/// The media kind of a file, from its extension.
#[derive(Clone, Copy, PartialEq, Eq, Structural, Debug)]
pub enum MediaKind {
    Photo,
    Video,
    Other,
}

/// ASCII lower-casing on Unicode scalar values: letters `A`..`Z` map to
/// their lower-case scalar, everything else is unchanged.
pub open spec fn lower32(c: char) -> u32 {
    if 65 <= (c as u32) <= 90 {
        ((c as u32) + 32) as u32
    } else {
        c as u32
    }
}

/// Case-insensitive (ASCII) equality of character sequences.
pub open spec fn ci_eq(a: Seq<char>, b: Seq<char>) -> bool {
    a.len() == b.len() && forall|i: int| 0 <= i < a.len() ==> lower32(a[i]) == lower32(b[i])
}

/// ASCII lower-casing of one character, as executable code.
pub fn lower_u32(c: char) -> (r: u32)
    ensures
        r == lower32(c),
{
    let v = c as u32;
    if 65 <= v && v <= 90 {
        v + 32
    } else {
        v
    }
}

/// Tests case-insensitive (ASCII) equality of two strings.
pub fn ci_eq_str(a: &str, b: &str) -> (r: bool)
    ensures
        r == ci_eq(a@, b@),
{
    let a_len = a.unicode_len();
    let b_len = b.unicode_len();
    if a_len != b_len {
        return false;
    }
    let mut i: usize = 0;
    while i < a_len
        invariant
            0 <= i <= a_len,
            a_len == a@.len(),
            a@.len() == b@.len(),
            forall|k: int| 0 <= k < i ==> lower32(a@[k]) == lower32(b@[k]),
        decreases a_len - i,
    {
        let ca = lower_u32(a.get_char(i));
        let cb = lower_u32(b.get_char(i));
        if ca != cb {
            return false;
        }
        i = i + 1;
    }
    true
}

/// The index of the last occurrence of `c` in `p`, or `-1` if absent.
pub open spec fn last_index(p: Seq<char>, c: char) -> int
    decreases p.len(),
{
    if p.len() == 0 {
        -1
    } else if p.last() == c {
        p.len() - 1
    } else {
        last_index(p.drop_last(), c)
    }
}

pub proof fn lemma_last_index_ensures(p: Seq<char>, c: char)
    ensures
        last_index(p, c) >= 0 ==> {
            &&& last_index(p, c) < p.len()
            &&& p[last_index(p, c)] == c
            &&& forall|j: int| last_index(p, c) < j < p.len() ==> p[j] != c
        },
        last_index(p, c) < 0 ==> last_index(p, c) == -1 && (forall|j: int|
            0 <= j < p.len() ==> p[j] != c),
    decreases p.len(),
{
    if p.len() > 0 && p.last() != c {
        lemma_last_index_ensures(p.drop_last(), c);
        assert forall|j: int| last_index(p, c) < j < p.len() implies p[j] != c by {
            if j < p.len() - 1 {
                assert(p.drop_last()[j] == p[j]);
            }
        }
        assert forall|j: int|
            0 <= j < p.len() && last_index(p, c) == -1 implies p[j] != c by {
            if j < p.len() - 1 {
                assert(p.drop_last()[j] == p[j]);
            }
        }
    }
}

/// A last occurrence found by a backward scan is `last_index`.
proof fn lemma_last_index_from_witness(p: Seq<char>, c: char, i: int)
    requires
        0 <= i < p.len(),
        p[i] == c,
        forall|j: int| i < j < p.len() ==> p[j] != c,
    ensures
        last_index(p, c) == i,
    decreases p.len(),
{
    if p.last() != c {
        assert forall|j: int| i < j < p.drop_last().len() implies p.drop_last()[j] != c by {
            assert(p.drop_last()[j] == p[j]);
        }
        assert(p.drop_last()[i] == p[i]);
        lemma_last_index_from_witness(p.drop_last(), c, i);
    }
}

proof fn lemma_last_index_absent(p: Seq<char>, c: char)
    requires
        forall|j: int| 0 <= j < p.len() ==> p[j] != c,
    ensures
        last_index(p, c) == -1,
    decreases p.len(),
{
    if p.len() > 0 {
        assert forall|j: int| 0 <= j < p.drop_last().len() implies p.drop_last()[j] != c by {
            assert(p.drop_last()[j] == p[j]);
        }
        lemma_last_index_absent(p.drop_last(), c);
    }
}

/// Finds the last occurrence of `c` in `s`, scanning backward.
pub fn rfind_char(s: &str, c: char) -> (r: Option<usize>)
    ensures
        match r {
            Some(i) => i == last_index(s@, c),
            None => last_index(s@, c) == -1,
        },
{
    let len = s.unicode_len();
    let mut i: usize = len;
    while i > 0
        invariant
            0 <= i <= len,
            len == s@.len(),
            forall|j: int| i <= j < len ==> s@[j] != c,
        decreases i,
    {
        i = i - 1;
        let ci = s.get_char(i);
        if (ci as u32) == (c as u32) {
            proof {
                vstd::utf8::char_u32_cast(ci, ci as u32);
                vstd::utf8::char_u32_cast(c, c as u32);
                lemma_last_index_from_witness(s@, c, i as int);
            }
            return Some(i);
        }
        proof {
            vstd::utf8::char_u32_cast(ci, ci as u32);
            vstd::utf8::char_u32_cast(c, c as u32);
        }
    }
    proof {
        lemma_last_index_absent(s@, c);
    }
    None
}

/// The final component of a path: everything after the last `/`.
pub open spec fn file_name_spec(p: Seq<char>) -> Seq<char> {
    p.subrange(last_index(p, '/') + 1, p.len() as int)
}

/// The extension of a path: the part of the file name after its last dot.
/// A dot in first position (a hidden file) or an absent dot yields `None`.
pub open spec fn ext_spec(p: Seq<char>) -> Option<Seq<char>> {
    let f = file_name_spec(p);
    let d = last_index(f, '.');
    if d <= 0 {
        None
    } else {
        Some(f.subrange(d + 1, f.len() as int))
    }
}

/// The photo extension allow-list, matched case-insensitively.
pub open spec fn is_photo_ext(e: Seq<char>) -> bool {
    ||| ci_eq(e, "jpg"@)
    ||| ci_eq(e, "jpeg"@)
    ||| ci_eq(e, "png"@)
    ||| ci_eq(e, "gif"@)
    ||| ci_eq(e, "webp"@)
    ||| ci_eq(e, "bmp"@)
    ||| ci_eq(e, "tiff"@)
    ||| ci_eq(e, "tif"@)
    ||| ci_eq(e, "heic"@)
    ||| ci_eq(e, "heif"@)
    ||| ci_eq(e, "raw"@)
    ||| ci_eq(e, "arw"@)
    ||| ci_eq(e, "cr2"@)
    ||| ci_eq(e, "nef"@)
    ||| ci_eq(e, "dng"@)
}

/// The video extension allow-list, matched case-insensitively.
pub open spec fn is_video_ext(e: Seq<char>) -> bool {
    ||| ci_eq(e, "mp4"@)
    ||| ci_eq(e, "mov"@)
    ||| ci_eq(e, "avi"@)
    ||| ci_eq(e, "mkv"@)
    ||| ci_eq(e, "webm"@)
    ||| ci_eq(e, "m4v"@)
    ||| ci_eq(e, "wmv"@)
    ||| ci_eq(e, "3gp"@)
}

/// The media kind of a path, from its extension alone.
pub open spec fn media_kind_spec(p: Seq<char>) -> MediaKind {
    match ext_spec(p) {
        Option::None => MediaKind::Other,
        Option::Some(e) => if is_photo_ext(e) {
            MediaKind::Photo
        } else if is_video_ext(e) {
            MediaKind::Video
        } else {
            MediaKind::Other
        },
    }
}

fn photo_ext_matches(e: &str) -> (r: bool)
    ensures
        r == is_photo_ext(e@),
{
    ci_eq_str(e, "jpg") || ci_eq_str(e, "jpeg") || ci_eq_str(e, "png") || ci_eq_str(e, "gif")
        || ci_eq_str(e, "webp") || ci_eq_str(e, "bmp") || ci_eq_str(e, "tiff") || ci_eq_str(
        e,
        "tif",
    ) || ci_eq_str(e, "heic") || ci_eq_str(e, "heif") || ci_eq_str(e, "raw") || ci_eq_str(e, "arw")
        || ci_eq_str(e, "cr2") || ci_eq_str(e, "nef") || ci_eq_str(e, "dng")
}

fn video_ext_matches(e: &str) -> (r: bool)
    ensures
        r == is_video_ext(e@),
{
    ci_eq_str(e, "mp4") || ci_eq_str(e, "mov") || ci_eq_str(e, "avi") || ci_eq_str(e, "mkv")
        || ci_eq_str(e, "webm") || ci_eq_str(e, "m4v") || ci_eq_str(e, "wmv") || ci_eq_str(
        e,
        "3gp",
    )
}

/// The final path component of `path`.
pub fn file_name_of(path: &str) -> (r: &str)
    ensures
        r@ == file_name_spec(path@),
{
    let len = path.unicode_len();
    proof {
        lemma_last_index_ensures(path@, '/');
    }
    match rfind_char(path, '/') {
        Some(i) => path.substring_char(i + 1, len),
        None => path.substring_char(0, len),
    }
}

/// Classifies a path by its extension, case-insensitively: `Photo` and
/// `Video` for the allow-listed extensions, `Other` for everything else.
pub fn media_type_from_path(path: &str) -> (k: MediaKind)
    ensures
        k == media_kind_spec(path@),
{
    let name = file_name_of(path);
    let name_len = name.unicode_len();
    proof {
        lemma_last_index_ensures(name@, '.');
    }
    match rfind_char(name, '.') {
        Some(d) if d > 0 => {
            let ext = name.substring_char(d + 1, name_len);
            if photo_ext_matches(ext) {
                MediaKind::Photo
            } else if video_ext_matches(ext) {
                MediaKind::Video
            } else {
                MediaKind::Other
            }
        },
        _ => MediaKind::Other,
    }
}

/// The scanner's filter: true exactly for the allow-listed photo and video
/// extensions (case-insensitively), false for every other file.
pub fn is_candidate_path(path: &str) -> (r: bool)
    ensures
        r == (media_kind_spec(path@) != MediaKind::Other),
{
    let k = media_type_from_path(path);
    match k {
        MediaKind::Other => false,
        _ => true,
    }
}

/// The scanner's inclusion rule depends only on the (case-folded) extension:
/// two paths whose extensions agree case-insensitively are classified alike,
/// and a path with no extension is never a candidate.
pub proof fn lemma_scanner_case_insensitive(p1: Seq<char>, p2: Seq<char>)
    requires
        ext_spec(p1) matches Some(e1) && ext_spec(p2) matches Some(e2) && ci_eq(e1, e2),
    ensures
        media_kind_spec(p1) == media_kind_spec(p2),
{
    let e1 = ext_spec(p1).unwrap();
    let e2 = ext_spec(p2).unwrap();
    assert(is_photo_ext(e1) == is_photo_ext(e2) && is_video_ext(e1) == is_video_ext(e2)) by {
        lemma_ci_eq_common(e1, e2, "jpg"@);
        lemma_ci_eq_common(e1, e2, "jpeg"@);
        lemma_ci_eq_common(e1, e2, "png"@);
        lemma_ci_eq_common(e1, e2, "gif"@);
        lemma_ci_eq_common(e1, e2, "webp"@);
        lemma_ci_eq_common(e1, e2, "bmp"@);
        lemma_ci_eq_common(e1, e2, "tiff"@);
        lemma_ci_eq_common(e1, e2, "tif"@);
        lemma_ci_eq_common(e1, e2, "heic"@);
        lemma_ci_eq_common(e1, e2, "heif"@);
        lemma_ci_eq_common(e1, e2, "raw"@);
        lemma_ci_eq_common(e1, e2, "arw"@);
        lemma_ci_eq_common(e1, e2, "cr2"@);
        lemma_ci_eq_common(e1, e2, "nef"@);
        lemma_ci_eq_common(e1, e2, "dng"@);
        lemma_ci_eq_common(e1, e2, "mp4"@);
        lemma_ci_eq_common(e1, e2, "mov"@);
        lemma_ci_eq_common(e1, e2, "avi"@);
        lemma_ci_eq_common(e1, e2, "mkv"@);
        lemma_ci_eq_common(e1, e2, "webm"@);
        lemma_ci_eq_common(e1, e2, "m4v"@);
        lemma_ci_eq_common(e1, e2, "wmv"@);
        lemma_ci_eq_common(e1, e2, "3gp"@);
    }
}

proof fn lemma_ci_eq_common(a: Seq<char>, b: Seq<char>, t: Seq<char>)
    requires
        ci_eq(a, b),
    ensures
        ci_eq(a, t) == ci_eq(b, t),
{
}

/// The parent directory of a path: everything before the last `/`, or the
/// empty sequence when the path has no separator.
pub open spec fn parent_spec(p: Seq<char>) -> Seq<char> {
    if last_index(p, '/') < 0 {
        Seq::empty()
    } else {
        p.subrange(0, last_index(p, '/'))
    }
}

/// The folder of `path` relative to `root`: the parent directory with the
/// root prefix removed; empty when the file sits directly under the root or
/// when the parent does not lie under the root at all.
pub open spec fn folder_rel_spec(path: Seq<char>, root: Seq<char>) -> Seq<char> {
    let parent = parent_spec(path);
    if parent == root {
        Seq::empty()
    } else if is_prefix_of(root.push('/'), parent) {
        parent.subrange(root.len() as int + 1, parent.len() as int)
    } else {
        Seq::empty()
    }
}

/// Derives the folder of `path` relative to `root`.
pub fn folder_rel_of(path: &str, root: &str) -> (r: String)
    ensures
        r@ == folder_rel_spec(path@, root@),
{
    proof {
        lemma_last_index_ensures(path@, '/');
    }
    let parent = match rfind_char(path, '/') {
        Some(i) => path.substring_char(0, i),
        None => path.substring_char(0, 0),
    };
    proof {
        if last_index(path@, '/') < 0 {
            assert(parent@ =~= parent_spec(path@));
        }
    }
    let parent_len = parent.unicode_len();
    if crate::strutil::str_eq(parent, root) {
        String::new()
    } else {
        let mut root_slash = root.to_owned();
        crate::strutil::push_char(&mut root_slash, '/');
        if crate::strutil::str_starts_with(parent, root_slash.as_str()) {
            let res = parent.substring_char(root_slash.unicode_len(), parent_len);
            proof {
                assert(res@ =~= parent_spec(path@).subrange(
                    root@.len() as int + 1,
                    parent_spec(path@).len() as int,
                ));
            }
            res.to_owned()
        } else {
            String::new()
        }
    }
}

/// A path with its final component replaced: the rename rule for
/// reconstructing a photo's path from its new file name.
pub open spec fn with_file_name_spec(p: Seq<char>, name: Seq<char>) -> Seq<char> {
    if last_index(p, '/') >= 0 {
        p.subrange(0, last_index(p, '/') + 1) + name
    } else {
        name
    }
}

/// Replaces the final path component of `path` with `name`.
pub fn replace_file_name(path: &str, name: &str) -> (r: String)
    ensures
        r@ == with_file_name_spec(path@, name@),
{
    let path_chars = path.unicode_len();
    proof {
        assert(path_chars == path@.len());
        lemma_last_index_ensures(path@, '/');
    }
    match rfind_char(path, '/') {
        Some(i) => {
            let prefix = path.substring_char(0, i + 1);
            let mut out = prefix.to_owned();
            out.append(name);
            out
        },
        None => name.to_owned(),
    }
}

/// The metadata record the extractor produces for one file, ready to be
/// written to the catalog.
#[derive(Clone, Debug)]
pub struct ScannedFile {
    pub path: String,
    pub filename: String,
    pub folder_rel: String,
    pub taken_at: Option<String>,
    pub modified_at: String,
    pub media_type: MediaKind,
    pub size_bytes: i64,
    pub width: Option<i32>,
    pub height: Option<i32>,
    pub camera_make: Option<String>,
    pub camera_model: Option<String>,
    pub lens: Option<String>,
    pub iso: Option<i32>,
    pub shutter_speed: Option<String>,
    pub aperture: Option<String>,
    pub focal_length: Option<String>,
    pub gps_lat: Option<GpsCoord>,
    pub gps_lon: Option<GpsCoord>,
}

/// Assembles the record for one file from its path, its library root, what
/// the filesystem reported (size and modification time), and what the
/// probes yielded. The derived names come from the path; EXIF fields and
/// pixel dimensions are kept only for the `Photo` kind (other kinds are
/// never probed); the capture time falls back to the modification time, so
/// the record always carries an effective timestamp.
pub fn build_scanned_file(
    path: &str,
    root: &str,
    size_bytes: i64,
    modified_at: String,
    exif: ExifData,
    width: Option<i32>,
    height: Option<i32>,
) -> (r: ScannedFile)
    ensures
        r.path@ == path@,
        r.filename@ == file_name_spec(path@),
        r.folder_rel@ == folder_rel_spec(path@, root@),
        r.media_type == media_kind_spec(path@),
        r.size_bytes == size_bytes,
        r.modified_at@ == modified_at@,
        media_kind_spec(path@) == MediaKind::Photo ==> {
            &&& opt_view(r.taken_at) == (if exif@.taken_at is Some {
                exif@.taken_at
            } else {
                Option::Some(modified_at@)
            })
            &&& opt_view(r.camera_make) == exif@.camera_make
            &&& opt_view(r.camera_model) == exif@.camera_model
            &&& opt_view(r.lens) == exif@.lens
            &&& r.iso == exif@.iso
            &&& opt_view(r.shutter_speed) == exif@.shutter_speed
            &&& opt_view(r.aperture) == exif@.aperture
            &&& opt_view(r.focal_length) == exif@.focal_length
            &&& r.gps_lat == exif@.gps_lat
            &&& r.gps_lon == exif@.gps_lon
            &&& r.width == width
            &&& r.height == height
        },
        media_kind_spec(path@) != MediaKind::Photo ==> {
            &&& opt_view(r.taken_at) == Option::Some(modified_at@)
            &&& r.camera_make is None
            &&& r.camera_model is None
            &&& r.lens is None
            &&& r.iso is None
            &&& r.shutter_speed is None
            &&& r.aperture is None
            &&& r.focal_length is None
            &&& r.gps_lat is None
            &&& r.gps_lon is None
            &&& r.width is None
            &&& r.height is None
        },
{
    let filename = file_name_of(path).to_owned();
    let folder_rel = folder_rel_of(path, root);
    let media_type = media_type_from_path(path);
    let is_photo = match media_type {
        MediaKind::Photo => true,
        _ => false,
    };
    let taken_at: Option<String> = if is_photo {
        match exif.taken_at {
            Some(t) => Some(t),
            None => Some(modified_at.clone()),
        }
    } else {
        Some(modified_at.clone())
    };
    if is_photo {
        ScannedFile {
            path: path.to_owned(),
            filename,
            folder_rel,
            taken_at,
            modified_at,
            media_type,
            size_bytes,
            width,
            height,
            camera_make: exif.camera_make,
            camera_model: exif.camera_model,
            lens: exif.lens,
            iso: exif.iso,
            shutter_speed: exif.shutter_speed,
            aperture: exif.aperture,
            focal_length: exif.focal_length,
            gps_lat: exif.gps_lat,
            gps_lon: exif.gps_lon,
        }
    } else {
        ScannedFile {
            path: path.to_owned(),
            filename,
            folder_rel,
            taken_at,
            modified_at,
            media_type,
            size_bytes,
            width: None,
            height: None,
            camera_make: None,
            camera_model: None,
            lens: None,
            iso: None,
            shutter_speed: None,
            aperture: None,
            focal_length: None,
            gps_lat: None,
            gps_lon: None,
        }
    }
}

/// Case-insensitive (ASCII) substring containment: some window of `hay`
/// equals `needle` case-insensitively. The empty needle is contained in
/// everything.
pub open spec fn ci_contains(hay: Seq<char>, needle: Seq<char>) -> bool {
    exists|k: int|
        0 <= k && k + needle.len() <= hay.len() && ci_eq(
            #[trigger] hay.subrange(k, k + needle.len()),
            needle,
        )
}

/// Tests case-insensitive substring containment.
pub fn ci_contains_str(hay: &str, needle: &str) -> (r: bool)
    ensures
        r == ci_contains(hay@, needle@),
{
    let h_len = hay.unicode_len();
    let n_len = needle.unicode_len();
    if n_len > h_len {
        proof {
            assert(!ci_contains(hay@, needle@)) by {
                if ci_contains(hay@, needle@) {
                    let k = choose|k: int|
                        0 <= k && k + needle@.len() <= hay@.len() && ci_eq(
                            #[trigger] hay@.subrange(k, k + needle@.len()),
                            needle@,
                        );
                }
            }
        }
        return false;
    }
    let mut k: usize = 0;
    while k <= h_len - n_len
        invariant
            0 <= k <= h_len - n_len + 1,
            n_len <= h_len,
            h_len == hay@.len(),
            n_len == needle@.len(),
            forall|m: int|
                0 <= m < k ==> !ci_eq(#[trigger] hay@.subrange(m, m + needle@.len()), needle@),
        decreases h_len - n_len - k + 1,
    {
        let window = hay.substring_char(k, k + n_len);
        if ci_eq_str(window, needle) {
            return true;
        }
        k = k + 1;
    }
    proof {
        assert(!ci_contains(hay@, needle@)) by {
            if ci_contains(hay@, needle@) {
                let m = choose|m: int|
                    0 <= m && m + needle@.len() <= hay@.len() && ci_eq(
                        #[trigger] hay@.subrange(m, m + needle@.len()),
                        needle@,
                    );
                assert(!ci_eq(hay@.subrange(m, m + needle@.len()), needle@));
            }
        }
    }
    false
}

} // verus!
