//! The catalog store: libraries, photos, tags and albums, with the query
//! and mutation semantics of the persistent schema — upsert by (library,
//! path), soft and hard deletion, idempotent tag and album association, and
//! deterministic query ordering.
//!
//! The store itself is an in-memory relational model; reading it from and
//! writing it to durable storage is the caller's concern.
use vstd::prelude::*;
use vstd::relations::sorted_by;
use crate::exif::GpsCoord;
use crate::scan::MediaKind;
use crate::scan::ci_contains;
use crate::scan::file_name_spec;
use crate::strutil::lex_le;
use crate::strutil::is_digit;
use crate::strutil::digit_val;
use crate::strutil::is_prefix_of;
use crate::strutil::lemma_lex_le_refl;
use crate::strutil::lemma_lex_le_total;
use crate::strutil::lemma_lex_le_trans;
use crate::strutil::lemma_lex_le_antisym;
use crate::order::SortOrd;
use crate::order::SortOrdExec;
use crate::exif::opt_view;

verus! {

/// One catalog row for a media file.
#[derive(Clone, Debug)]
pub struct PhotoRecord {
    pub id: i64,
    pub library_id: i64,
    pub path: String,
    pub filename: String,
    pub folder_rel: String,
    pub taken_at: Option<String>,
    pub modified_at: String,
    pub media_type: MediaKind,
    pub size_bytes: i64,
    pub width: Option<i32>,
    pub height: Option<i32>,
    pub source: String,
    pub is_favorite: bool,
    pub is_deleted: bool,
    pub deleted_at: Option<String>,
    pub camera_make: Option<String>,
    pub camera_model: Option<String>,
    pub lens: Option<String>,
    pub iso: Option<i32>,
    pub shutter_speed: Option<String>,
    pub aperture: Option<String>,
    pub focal_length: Option<String>,
    pub gps_lat: Option<GpsCoord>,
    pub gps_lon: Option<GpsCoord>,
}

/// The view of a photo row: the same fields over character sequences.
#[verifier::ext_equal]
pub struct PhotoView {
    pub id: i64,
    pub library_id: i64,
    pub path: Seq<char>,
    pub filename: Seq<char>,
    pub folder_rel: Seq<char>,
    pub taken_at: Option<Seq<char>>,
    pub modified_at: Seq<char>,
    pub media_type: MediaKind,
    pub size_bytes: i64,
    pub width: Option<i32>,
    pub height: Option<i32>,
    pub source: Seq<char>,
    pub is_favorite: bool,
    pub is_deleted: bool,
    pub deleted_at: Option<Seq<char>>,
    pub camera_make: Option<Seq<char>>,
    pub camera_model: Option<Seq<char>>,
    pub lens: Option<Seq<char>>,
    pub iso: Option<i32>,
    pub shutter_speed: Option<Seq<char>>,
    pub aperture: Option<Seq<char>>,
    pub focal_length: Option<Seq<char>>,
    pub gps_lat: Option<GpsCoord>,
    pub gps_lon: Option<GpsCoord>,
}

impl View for PhotoRecord {
    type V = PhotoView;

    open spec fn view(&self) -> PhotoView {
        PhotoView {
            id: self.id,
            library_id: self.library_id,
            path: self.path@,
            filename: self.filename@,
            folder_rel: self.folder_rel@,
            taken_at: opt_view(self.taken_at),
            modified_at: self.modified_at@,
            media_type: self.media_type,
            size_bytes: self.size_bytes,
            width: self.width,
            height: self.height,
            source: self.source@,
            is_favorite: self.is_favorite,
            is_deleted: self.is_deleted,
            deleted_at: opt_view(self.deleted_at),
            camera_make: opt_view(self.camera_make),
            camera_model: opt_view(self.camera_model),
            lens: opt_view(self.lens),
            iso: self.iso,
            shutter_speed: opt_view(self.shutter_speed),
            aperture: opt_view(self.aperture),
            focal_length: opt_view(self.focal_length),
            gps_lat: self.gps_lat,
            gps_lon: self.gps_lon,
        }
    }
}

/// The views of a sequence of photo rows.
pub open spec fn photo_views(s: Seq<PhotoRecord>) -> Seq<PhotoView> {
    s.map_values(|p: PhotoRecord| p@)
}

/// The effective timestamp of a photo: its capture time when known, its
/// modification time otherwise. The default query order sorts by it.
pub open spec fn effective_ts(v: PhotoView) -> Seq<char> {
    match v.taken_at {
        Option::Some(t) => t,
        Option::None => v.modified_at,
    }
}

impl SortOrd for PhotoView {
    /// The default query order: effective timestamp descending, path
    /// ascending on ties.
    open spec fn le_spec(&self, other: &Self) -> bool {
        if effective_ts(*self) == effective_ts(*other) {
            lex_le(self.path, other.path)
        } else {
            lex_le(effective_ts(*other), effective_ts(*self))
        }
    }

    proof fn lemma_le_total(a: &Self, b: &Self) {
        if effective_ts(*a) == effective_ts(*b) {
            lemma_lex_le_total(a.path, b.path);
        } else {
            lemma_lex_le_total(effective_ts(*a), effective_ts(*b));
        }
    }

    proof fn lemma_le_trans(a: &Self, b: &Self, c: &Self) {
        let ea = effective_ts(*a);
        let eb = effective_ts(*b);
        let ec = effective_ts(*c);
        if ea == eb && eb == ec {
            lemma_lex_le_trans(a.path, b.path, c.path);
        } else if ea != eb && eb != ec {
            lemma_lex_le_trans(ec, eb, ea);
            if ea == ec {
                lemma_lex_le_antisym(eb, ec);
            }
        }
    }
}

impl SortOrd for PhotoRecord {
    open spec fn le_spec(&self, other: &Self) -> bool {
        self@.le_spec(&other@)
    }

    proof fn lemma_le_total(a: &Self, b: &Self) {
        PhotoView::lemma_le_total(&a@, &b@);
    }

    proof fn lemma_le_trans(a: &Self, b: &Self, c: &Self) {
        PhotoView::lemma_le_trans(&a@, &b@, &c@);
    }
}

impl SortOrdExec for PhotoRecord {
    fn le(&self, other: &Self) -> (r: bool) {
        let ea: &str = match &self.taken_at {
            Some(t) => t.as_str(),
            None => self.modified_at.as_str(),
        };
        let eb: &str = match &other.taken_at {
            Some(t) => t.as_str(),
            None => other.modified_at.as_str(),
        };
        let rel = crate::strutil::str_cmp(ea, eb);
        proof {
            if rel == crate::strutil::Rel::Below && lex_le(eb@, ea@) {
                lemma_lex_le_antisym(ea@, eb@);
            }
        }
        match rel {
            crate::strutil::Rel::Same => crate::strutil::str_le(
                self.path.as_str(),
                other.path.as_str(),
            ),
            crate::strutil::Rel::Below => false,
            crate::strutil::Rel::Above => true,
        }
    }
}

/// One managed root directory.
#[derive(Clone, Debug)]
pub struct LibraryRow {
    pub id: i64,
    pub root_path: String,
    pub created_at: String,
}

/// A user tag: unique name, display colour.
#[derive(Clone, Debug)]
pub struct TagRecord {
    pub id: i64,
    pub name: String,
    pub color: String,
}

impl SortOrd for TagRecord {
    /// Tag listings are ordered by name.
    open spec fn le_spec(&self, other: &Self) -> bool {
        lex_le(self.name@, other.name@)
    }

    proof fn lemma_le_total(a: &Self, b: &Self) {
        lemma_lex_le_total(a.name@, b.name@);
    }

    proof fn lemma_le_trans(a: &Self, b: &Self, c: &Self) {
        lemma_lex_le_trans(a.name@, b.name@, c.name@);
    }
}

impl SortOrdExec for TagRecord {
    fn le(&self, other: &Self) -> (r: bool) {
        crate::strutil::str_le(self.name.as_str(), other.name.as_str())
    }
}

/// A photo-tag association.
#[derive(Clone, Copy, PartialEq, Eq, Structural, Debug)]
pub struct PhotoTagRow {
    pub photo_id: i64,
    pub tag_id: i64,
}

/// A user album row.
#[derive(Clone, Debug)]
pub struct AlbumRow {
    pub id: i64,
    pub name: String,
    pub created_at: String,
}

impl SortOrd for AlbumRow {
    /// Album listings are ordered newest first.
    open spec fn le_spec(&self, other: &Self) -> bool {
        lex_le(other.created_at@, self.created_at@)
    }

    proof fn lemma_le_total(a: &Self, b: &Self) {
        lemma_lex_le_total(a.created_at@, b.created_at@);
    }

    proof fn lemma_le_trans(a: &Self, b: &Self, c: &Self) {
        lemma_lex_le_trans(c.created_at@, b.created_at@, a.created_at@);
    }
}

impl SortOrdExec for AlbumRow {
    fn le(&self, other: &Self) -> (r: bool) {
        crate::strutil::str_le(other.created_at.as_str(), self.created_at.as_str())
    }
}

/// An album-photo association with its display position.
#[derive(Clone, Copy, PartialEq, Eq, Structural, Debug)]
pub struct AlbumPhotoRow {
    pub album_id: i64,
    pub photo_id: i64,
    pub position: i64,
}

/// An album as listed to callers: the row plus its photo count and the path
/// of its first photo.
#[derive(Clone, Debug)]
pub struct AlbumRecord {
    pub id: i64,
    pub name: String,
    pub created_at: String,
    pub photo_count: u64,
    pub cover_path: Option<String>,
}

/// A library as listed to callers: the row plus a display name (the leaf of
/// its root directory) and its photo count.
#[derive(Clone, Debug)]
pub struct LibraryInfo {
    pub id: i64,
    pub root_path: String,
    pub name: String,
    pub photo_count: u64,
}

/// One year facet: the year and how many photos carry it.
#[derive(Clone, Copy, PartialEq, Eq, Structural, Debug)]
pub struct CategoryYear {
    pub year: i32,
    pub count: u64,
}

/// One month facet within a year.
#[derive(Clone, Copy, PartialEq, Eq, Structural, Debug)]
pub struct CategoryMonth {
    pub year: i32,
    pub month: i32,
    pub count: u64,
}

/// A folder facet tree node.
pub struct FolderNode {
    pub path: String,
    pub name: String,
    pub count: u64,
    pub children: Vec<FolderNode>,
}

/// The optional filters of a photo listing: every predicate is optional and
/// they conjoin.
pub struct GetPhotosParams {
    pub limit: Option<i64>,
    pub offset: Option<i64>,
    pub year: Option<i32>,
    pub month: Option<i32>,
    pub folder: Option<String>,
    pub media_type: Option<MediaKind>,
}

/// Why a catalog operation was refused.
#[derive(Clone, Copy, PartialEq, Eq, Structural, Debug)]
pub enum CatalogError {
    PhotoNotFound,
    TagNameTaken,
    PathTaken,
}

impl CatalogError {
    /// A short description for callers that render errors as text.
    pub fn message(&self) -> (r: &'static str)
        ensures
            self is PhotoNotFound ==> r@ == "photo not found"@,
            self is TagNameTaken ==> r@ == "a tag with that name already exists"@,
            self is PathTaken ==> r@ == "a photo with that path already exists"@,
    {
        match self {
            CatalogError::PhotoNotFound => "photo not found",
            CatalogError::TagNameTaken => "a tag with that name already exists",
            CatalogError::PathTaken => "a photo with that path already exists",
        }
    }
}

/// The catalog: every table of the schema, plus the id counters.
pub struct Catalog {
    pub libraries: Vec<LibraryRow>,
    pub photos: Vec<PhotoRecord>,
    pub tags: Vec<TagRecord>,
    pub photo_tags: Vec<PhotoTagRow>,
    pub albums: Vec<AlbumRow>,
    pub album_photos: Vec<AlbumPhotoRow>,
    pub next_library_id: i64,
    pub next_photo_id: i64,
    pub next_tag_id: i64,
    pub next_album_id: i64,
}

impl Catalog {
    /// The schema's integrity rules: unique ids below their counters, a
    /// unique root path per library, a unique path per (library, path), a
    /// unique tag name, no duplicate associations, no repeated position
    /// within an album, and sorted tag and album listings.
    pub open spec fn wf(self) -> bool {
        &&& 0 < self.next_library_id
        &&& 0 < self.next_photo_id
        &&& 0 < self.next_tag_id
        &&& 0 < self.next_album_id
        &&& forall|i: int, j: int|
            0 <= i < j < self.libraries@.len() ==> #[trigger] self.libraries@[i].id
                != #[trigger] self.libraries@[j].id && self.libraries@[i].root_path@
                != self.libraries@[j].root_path@
        &&& forall|i: int|
            0 <= i < self.libraries@.len() ==> 0 < (#[trigger] self.libraries@[i]).id
                < self.next_library_id
        &&& forall|i: int, j: int|
            0 <= i < j < self.photos@.len() ==> #[trigger] self.photos@[i].id
                != #[trigger] self.photos@[j].id && !(self.photos@[i].library_id
                == self.photos@[j].library_id && self.photos@[i].path@ == self.photos@[j].path@)
        &&& forall|i: int|
            0 <= i < self.photos@.len() ==> 0 < (#[trigger] self.photos@[i]).id
                < self.next_photo_id
        &&& forall|i: int, j: int|
            0 <= i < j < self.tags@.len() ==> #[trigger] self.tags@[i].id
                != #[trigger] self.tags@[j].id && self.tags@[i].name@ != self.tags@[j].name@
        &&& forall|i: int|
            0 <= i < self.tags@.len() ==> 0 < (#[trigger] self.tags@[i]).id < self.next_tag_id
        &&& sorted_by(self.tags@, crate::order::le_rel::<TagRecord>())
        &&& forall|i: int, j: int|
            0 <= i < j < self.photo_tags@.len() ==> #[trigger] self.photo_tags@[i]
                != #[trigger] self.photo_tags@[j]
        &&& forall|i: int, j: int|
            0 <= i < j < self.albums@.len() ==> #[trigger] self.albums@[i].id
                != #[trigger] self.albums@[j].id
        &&& forall|i: int|
            0 <= i < self.albums@.len() ==> 0 < (#[trigger] self.albums@[i]).id
                < self.next_album_id
        &&& sorted_by(self.albums@, crate::order::le_rel::<AlbumRow>())
        &&& forall|i: int, j: int|
            0 <= i < j < self.album_photos@.len() ==> !(#[trigger] self.album_photos@[i].album_id
                == #[trigger] self.album_photos@[j].album_id && self.album_photos@[i].photo_id
                == self.album_photos@[j].photo_id) && !(self.album_photos@[i].album_id
                == self.album_photos@[j].album_id && self.album_photos@[i].position
                == self.album_photos@[j].position)
    }

    /// An empty catalog, with every id counter at one.
    pub fn new() -> (r: Catalog)
        ensures
            r.wf(),
            r.libraries@.len() == 0,
            r.photos@.len() == 0,
            r.tags@.len() == 0,
            r.photo_tags@.len() == 0,
            r.albums@.len() == 0,
            r.album_photos@.len() == 0,
            r.next_library_id == 1,
            r.next_photo_id == 1,
            r.next_tag_id == 1,
            r.next_album_id == 1,
    {
        Catalog {
            libraries: Vec::new(),
            photos: Vec::new(),
            tags: Vec::new(),
            photo_tags: Vec::new(),
            albums: Vec::new(),
            album_photos: Vec::new(),
            next_library_id: 1,
            next_photo_id: 1,
            next_tag_id: 1,
            next_album_id: 1,
        }
    }
}


/// What one upsert of a scanned file does to the photo table: an existing
/// row with the same library and path is overwritten in place under its old
/// id, anything else is appended under the next id.
pub open spec fn insert_photo_rel(
    pre: Catalog,
    post: Catalog,
    library_id: i64,
    file: crate::scan::ScannedFile,
) -> bool {
    &&& (exists|i: int|
        0 <= i < pre.photos@.len() && (#[trigger] pre.photos@[i]).library_id == library_id
            && pre.photos@[i].path@ == file.path@) ==> {
        &&& post.photos@.len() == pre.photos@.len()
        &&& post.next_photo_id == pre.next_photo_id
        &&& forall|i: int|
            0 <= i < pre.photos@.len() ==> {
                let o = #[trigger] pre.photos@[i];
                let n = post.photos@[i];
                if o.library_id == library_id && o.path@ == file.path@ {
                    n@ == photo_view_of(file, library_id, o.id)
                } else {
                    n == o
                }
            }
    }
    &&& !(exists|i: int|
        0 <= i < pre.photos@.len() && (#[trigger] pre.photos@[i]).library_id == library_id
            && pre.photos@[i].path@ == file.path@) ==> {
        &&& post.photos@.len() == pre.photos@.len() + 1
        &&& forall|i: int| 0 <= i < pre.photos@.len() ==> post.photos@[i] == pre.photos@[i]
        &&& post.photos@.last()@ == photo_view_of(file, library_id, pre.next_photo_id)
        &&& post.next_photo_id == pre.next_photo_id + 1
    }
}


/// What a favorite toggle does: the row with the given id has its flag
/// flipped in place (the new value is returned); an unknown id changes
/// nothing and is refused.
pub open spec fn toggle_favorite_rel(
    pre: Catalog,
    post: Catalog,
    photo_id: i64,
    r: Result<bool, CatalogError>,
) -> bool {
    let i = photo_index_by_id(pre.photos@, photo_id);
    match r {
        Result::Ok(b) => {
            &&& i >= 0
            &&& b == !pre.photos@[i].is_favorite
            &&& post.photos@.len() == pre.photos@.len()
            &&& post.photos@[i]@ == (PhotoView { is_favorite: b, ..pre.photos@[i]@ })
            &&& forall|j: int|
                0 <= j < pre.photos@.len() && j != i ==> post.photos@[j] == pre.photos@[j]
        },
        Result::Err(e) => i == -1 && e == CatalogError::PhotoNotFound && post.photos@
            == pre.photos@,
    }
}

/// Copies an optional string.
fn clone_opt_string(o: &Option<String>) -> (r: Option<String>)
    ensures
        opt_view(r) == opt_view(*o),
{
    match o {
        Some(t) => Some(t.clone()),
        None => None,
    }
}

/// The catalog row that writing `file` into `library_id` under `id`
/// produces: the extracted fields, with the flag columns at their
/// defaults.
pub open spec fn photo_view_of(file: crate::scan::ScannedFile, library_id: i64, id: i64) -> PhotoView {
    PhotoView {
        id,
        library_id,
        path: file.path@,
        filename: file.filename@,
        folder_rel: file.folder_rel@,
        taken_at: opt_view(file.taken_at),
        modified_at: file.modified_at@,
        media_type: file.media_type,
        size_bytes: file.size_bytes,
        width: file.width,
        height: file.height,
        source: Seq::empty(),
        is_favorite: false,
        is_deleted: false,
        deleted_at: Option::None,
        camera_make: opt_view(file.camera_make),
        camera_model: opt_view(file.camera_model),
        lens: opt_view(file.lens),
        iso: file.iso,
        shutter_speed: opt_view(file.shutter_speed),
        aperture: opt_view(file.aperture),
        focal_length: opt_view(file.focal_length),
        gps_lat: file.gps_lat,
        gps_lon: file.gps_lon,
    }
}

/// Builds the catalog row for a scanned file.
fn photo_record_from(file: &crate::scan::ScannedFile, library_id: i64, id: i64) -> (r: PhotoRecord)
    ensures
        r@ =~= photo_view_of(*file, library_id, id),
{
    PhotoRecord {
        id,
        library_id,
        path: file.path.clone(),
        filename: file.filename.clone(),
        folder_rel: file.folder_rel.clone(),
        taken_at: clone_opt_string(&file.taken_at),
        modified_at: file.modified_at.clone(),
        media_type: file.media_type,
        size_bytes: file.size_bytes,
        width: file.width,
        height: file.height,
        source: String::new(),
        is_favorite: false,
        is_deleted: false,
        deleted_at: None,
        camera_make: clone_opt_string(&file.camera_make),
        camera_model: clone_opt_string(&file.camera_model),
        lens: clone_opt_string(&file.lens),
        iso: file.iso,
        shutter_speed: clone_opt_string(&file.shutter_speed),
        aperture: clone_opt_string(&file.aperture),
        focal_length: clone_opt_string(&file.focal_length),
        gps_lat: file.gps_lat,
        gps_lon: file.gps_lon,
    }
}

/// Copies a catalog row.
pub fn copy_photo(p: &PhotoRecord) -> (r: PhotoRecord)
    ensures
        r@ =~= p@,
{
    PhotoRecord {
        id: p.id,
        library_id: p.library_id,
        path: p.path.clone(),
        filename: p.filename.clone(),
        folder_rel: p.folder_rel.clone(),
        taken_at: clone_opt_string(&p.taken_at),
        modified_at: p.modified_at.clone(),
        media_type: p.media_type,
        size_bytes: p.size_bytes,
        width: p.width,
        height: p.height,
        source: p.source.clone(),
        is_favorite: p.is_favorite,
        is_deleted: p.is_deleted,
        deleted_at: clone_opt_string(&p.deleted_at),
        camera_make: clone_opt_string(&p.camera_make),
        camera_model: clone_opt_string(&p.camera_model),
        lens: clone_opt_string(&p.lens),
        iso: p.iso,
        shutter_speed: clone_opt_string(&p.shutter_speed),
        aperture: clone_opt_string(&p.aperture),
        focal_length: clone_opt_string(&p.focal_length),
        gps_lat: p.gps_lat,
        gps_lon: p.gps_lon,
    }
}

/// Tests whether a list of ids holds one id.
pub fn contains_id(ids: &Vec<i64>, id: i64) -> (r: bool)
    ensures
        r == ids@.contains(id),
{
    let mut k: usize = 0;
    while k < ids.len()
        invariant
            0 <= k <= ids@.len(),
            forall|j: int| 0 <= j < k ==> ids@[j] != id,
        decreases ids@.len() - k,
    {
        if ids[k] == id {
            return true;
        }
        k = k + 1;
    }
    false
}

/// A photo row after a soft delete at `now`.
pub open spec fn soft_deleted_view(v: PhotoView, now: Seq<char>) -> PhotoView {
    PhotoView { is_deleted: true, deleted_at: Option::Some(now), ..v }
}

/// A photo row after restoration from the trash.
pub open spec fn restored_view(v: PhotoView) -> PhotoView {
    PhotoView { is_deleted: false, deleted_at: Option::None, ..v }
}

impl Catalog {
    /// Upserts a library by root path: an existing row keeps its id and has
    /// its creation timestamp refreshed; otherwise a new row is created
    /// under a fresh id. Returns the library's id.
    pub fn get_or_create_library(&mut self, root_path: &str, now: &str) -> (r: i64)
        requires
            old(self).wf(),
            old(self).next_library_id < i64::MAX,
        ensures
            final(self).wf(),
            final(self).photos@ == old(self).photos@,
            final(self).tags@ == old(self).tags@,
            final(self).photo_tags@ == old(self).photo_tags@,
            final(self).albums@ == old(self).albums@,
            final(self).album_photos@ == old(self).album_photos@,
            final(self).next_photo_id == old(self).next_photo_id,
            final(self).next_tag_id == old(self).next_tag_id,
            final(self).next_album_id == old(self).next_album_id,
            (exists|i: int|
                0 <= i < old(self).libraries@.len() && (#[trigger] old(self).libraries@[i]).root_path@
                    == root_path@) ==> {
                &&& final(self).libraries@.len() == old(self).libraries@.len()
                &&& final(self).next_library_id == old(self).next_library_id
                &&& forall|i: int|
                    0 <= i < old(self).libraries@.len() ==> {
                        let o = #[trigger] old(self).libraries@[i];
                        let n = final(self).libraries@[i];
                        if o.root_path@ == root_path@ {
                            n.id == o.id && n.root_path@ == o.root_path@ && n.created_at@ == now@
                                && r == o.id
                        } else {
                            n == o
                        }
                    }
            },
            !(exists|i: int|
                0 <= i < old(self).libraries@.len() && (#[trigger] old(self).libraries@[i]).root_path@
                    == root_path@) ==> {
                &&& final(self).libraries@.len() == old(self).libraries@.len() + 1
                &&& forall|i: int|
                    0 <= i < old(self).libraries@.len() ==> final(self).libraries@[i] == old(
                        self,
                    ).libraries@[i]
                &&& final(self).libraries@.last().id == r
                &&& final(self).libraries@.last().root_path@ == root_path@
                &&& final(self).libraries@.last().created_at@ == now@
                &&& r == old(self).next_library_id
                &&& final(self).next_library_id == old(self).next_library_id + 1
            },
    {
        let ghost orig = self.libraries@;
        let mut i: usize = 0;
        while i < self.libraries.len()
            invariant
                0 <= i <= self.libraries@.len(),
                *self == *old(self),
                self.libraries@ == orig,
                old(self).wf(),
                old(self).next_library_id < i64::MAX,
                forall|j: int| 0 <= j < i ==> (#[trigger] orig[j]).root_path@ != root_path@,
            decreases self.libraries@.len() - i,
        {
            if crate::strutil::str_eq(self.libraries[i].root_path.as_str(), root_path) {
                let row = self.libraries.remove(i);
                let id = row.id;
                self.libraries.insert(
                    i,
                    LibraryRow { id: row.id, root_path: row.root_path, created_at: now.to_owned() },
                );
                proof {
                    assert(final(self).libraries@ =~= orig.update(
                        i as int,
                        final(self).libraries@[i as int],
                    ));
                }
                return id;
            }
            i = i + 1;
        }
        let id = self.next_library_id;
        self.libraries.push(
            LibraryRow { id, root_path: root_path.to_owned(), created_at: now.to_owned() },
        );
        self.next_library_id = id + 1;
        proof {
            let libs = self.libraries@;
            assert forall|a: int, b: int| 0 <= a < b < libs.len() implies (#[trigger] libs[a]).id
                != (#[trigger] libs[b]).id && libs[a].root_path@ != libs[b].root_path@ by {
                if b == libs.len() - 1 {
                    assert(libs[a] == orig[a]);
                    assert(0 < orig[a].id < old(self).next_library_id);
                    assert(orig[a].root_path@ != root_path@);
                }
            }
            assert forall|a: int| 0 <= a < libs.len() implies 0 < (#[trigger] libs[a]).id
                < self.next_library_id by {
                if a < libs.len() - 1 {
                    assert(libs[a] == orig[a]);
                    assert(0 < orig[a].id < old(self).next_library_id);
                }
            }
        }
        id
    }

    /// Writes one scanned file into a library: an upsert on (library, path).
    /// An existing row at the same path is overwritten in place — it keeps
    /// its id, its extracted fields are replaced, and its flag columns
    /// return to their defaults; any other file gets a fresh row under a
    /// fresh id. Row count grows only for a new path.
    pub fn insert_photo(&mut self, library_id: i64, file: &crate::scan::ScannedFile)
        requires
            old(self).wf(),
            old(self).next_photo_id < i64::MAX,
        ensures
            final(self).wf(),
            final(self).libraries@ == old(self).libraries@,
            final(self).tags@ == old(self).tags@,
            final(self).photo_tags@ == old(self).photo_tags@,
            final(self).albums@ == old(self).albums@,
            final(self).album_photos@ == old(self).album_photos@,
            final(self).next_library_id == old(self).next_library_id,
            final(self).next_tag_id == old(self).next_tag_id,
            final(self).next_album_id == old(self).next_album_id,
            insert_photo_rel(*old(self), *final(self), library_id, *file),
    {
        let ghost orig = self.photos@;
        let mut i: usize = 0;
        while i < self.photos.len()
            invariant
                0 <= i <= self.photos@.len(),
                *self == *old(self),
                self.photos@ == orig,
                old(self).wf(),
                old(self).next_photo_id < i64::MAX,
                forall|j: int|
                    0 <= j < i ==> !((#[trigger] orig[j]).library_id == library_id && orig[j].path@
                        == file.path@),
            decreases self.photos@.len() - i,
        {
            if self.photos[i].library_id == library_id && crate::strutil::str_eq(
                self.photos[i].path.as_str(),
                file.path.as_str(),
            ) {
                let row = self.photos.remove(i);
                let replacement = photo_record_from(file, library_id, row.id);
                self.photos.insert(i, replacement);
                proof {
                    assert(final(self).photos@ =~= orig.update(
                        i as int,
                        final(self).photos@[i as int],
                    ));
                }
                return ;
            }
            i = i + 1;
        }
        let id = self.next_photo_id;
        let row = photo_record_from(file, library_id, id);
        self.photos.push(row);
        self.next_photo_id = id + 1;
        proof {
            let ps = self.photos@;
            assert(ps.last()@ == photo_view_of(*file, library_id, id));
            assert forall|a: int, b: int| 0 <= a < b < ps.len() implies (#[trigger] ps[a]).id
                != (#[trigger] ps[b]).id && !(ps[a].library_id == ps[b].library_id && ps[a].path@
                == ps[b].path@) by {
                if b == ps.len() - 1 {
                    assert(ps[a] == orig[a]);
                    assert(0 < orig[a].id < old(self).next_photo_id);
                    assert(ps[b].id == old(self).next_photo_id);
                    assert(ps[b].path@ == file.path@);
                    assert(!(orig[a].library_id == library_id && orig[a].path@ == file.path@));
                }
            }
            assert forall|a: int| 0 <= a < ps.len() implies 0 < (#[trigger] ps[a]).id
                < self.next_photo_id by {
                if a < ps.len() - 1 {
                    assert(ps[a] == orig[a]);
                    assert(0 < orig[a].id < old(self).next_photo_id);
                }
            }
        }
    }

    /// How many rows a library holds, deleted ones included.
    pub fn count_photos_for_library(&self, library_id: i64) -> (n: u64)
        ensures
            n == self.photos@.filter(|p: PhotoRecord| p.library_id == library_id).len(),
    {
        let mut n: u64 = 0;
        let mut i: usize = 0;
        proof {
            reveal(Seq::filter);
            assert(self.photos@.subrange(0, 0).filter(|p: PhotoRecord| p.library_id == library_id)
                =~= Seq::<PhotoRecord>::empty());
        }
        while i < self.photos.len()
            invariant
                0 <= i <= self.photos@.len(),
                n == self.photos@.subrange(0, i as int).filter(
                    |p: PhotoRecord| p.library_id == library_id,
                ).len(),
                n <= i,
            decreases self.photos@.len() - i,
        {
            proof {
                reveal(Seq::filter);
                let pre = self.photos@.subrange(0, i as int);
                let post = self.photos@.subrange(0, i + 1 as int);
                assert(post.drop_last() =~= pre);
                assert(post.last() == self.photos@[i as int]);
            }
            if self.photos[i].library_id == library_id {
                n = n + 1;
            }
            i = i + 1;
        }
        proof {
            assert(self.photos@.subrange(0, self.photos@.len() as int) =~= self.photos@);
        }
        n
    }

    /// Removes every photo row of one library; tag and album associations
    /// of the removed rows are cleared with them.
    pub fn clear_photos_for_library(&mut self, library_id: i64)
        requires
            old(self).wf(),
        ensures
            final(self).wf(),
            final(self).photos@ == old(self).photos@.filter(
                |p: PhotoRecord| p.library_id != library_id,
            ),
            final(self).libraries@ == old(self).libraries@,
            final(self).tags@ == old(self).tags@,
            final(self).albums@ == old(self).albums@,
            final(self).next_library_id == old(self).next_library_id,
            final(self).next_photo_id == old(self).next_photo_id,
            final(self).photo_tags@ == old(self).photo_tags@.filter(
                |t: PhotoTagRow|
                    !(exists|i: int|
                        0 <= i < old(self).photos@.len() && (#[trigger] old(
                            self,
                        ).photos@[i]).library_id == library_id && old(self).photos@[i].id
                            == t.photo_id),
            ),
            final(self).album_photos@ == old(self).album_photos@.filter(
                |t: AlbumPhotoRow|
                    !(exists|i: int|
                        0 <= i < old(self).photos@.len() && (#[trigger] old(
                            self,
                        ).photos@[i]).library_id == library_id && old(self).photos@[i].id
                            == t.photo_id),
            ),
    {
        let mut doomed: Vec<i64> = Vec::new();
        let mut i: usize = 0;
        while i < self.photos.len()
            invariant
                0 <= i <= self.photos@.len(),
                *self == *old(self),
                forall|id: i64| #[trigger]
                    doomed@.contains(id) <==> (exists|j: int|
                        0 <= j < i && (#[trigger] old(self).photos@[j]).library_id == library_id
                            && old(self).photos@[j].id == id),
            decreases self.photos@.len() - i,
        {
            if self.photos[i].library_id == library_id {
                let ghost dpre = doomed@;
                doomed.push(self.photos[i].id);
                proof {
                    assert forall|id: i64| #[trigger] doomed@.contains(id) implies (exists|j: int|
                        0 <= j < i + 1 && (#[trigger] old(self).photos@[j]).library_id == library_id
                            && old(self).photos@[j].id == id) by {
                        let k = choose|k: int| 0 <= k < doomed@.len() && doomed@[k] == id;
                        if k < dpre.len() {
                            assert(dpre[k] == id);
                            assert(dpre.contains(id));
                        } else {
                            assert(old(self).photos@[i as int].library_id == library_id
                                && old(self).photos@[i as int].id == id);
                        }
                    }
                    assert forall|id: i64| (exists|j: int|
                        0 <= j < i + 1 && (#[trigger] old(self).photos@[j]).library_id == library_id
                            && old(self).photos@[j].id == id) implies #[trigger] doomed@.contains(
                        id,
                    ) by {
                        let j = choose|j: int|
                            0 <= j < i + 1 && (#[trigger] old(self).photos@[j]).library_id
                                == library_id && old(self).photos@[j].id == id;
                        if j < i {
                            assert(dpre.contains(id));
                            let k = choose|k: int| 0 <= k < dpre.len() && dpre[k] == id;
                            assert(doomed@[k] == id);
                        } else {
                            assert(doomed@[dpre.len() as int] == id);
                        }
                    }
                }
            } else {
                proof {
                    assert forall|id: i64| (exists|j: int|
                        0 <= j < i + 1 && (#[trigger] old(self).photos@[j]).library_id == library_id
                            && old(self).photos@[j].id == id) implies #[trigger] doomed@.contains(
                        id,
                    ) by {
                        let j = choose|j: int|
                            0 <= j < i + 1 && (#[trigger] old(self).photos@[j]).library_id
                                == library_id && old(self).photos@[j].id == id;
                        assert(0 <= j < i && old(self).photos@[j].library_id == library_id
                            && old(self).photos@[j].id == id);
                    }
                }
            }
            i = i + 1;
        }
        crate::order::retain_where(
            &mut self.photos,
            (|p: &PhotoRecord| -> (keep: bool)
                ensures
                    keep == (p.library_id != library_id),
                { p.library_id != library_id }),
            Ghost(|p: PhotoRecord| p.library_id != library_id),
        );
        let doomed_ref = &doomed;
        crate::order::retain_where(
            &mut self.photo_tags,
            (|t: &PhotoTagRow| -> (keep: bool)
                ensures
                    keep == !doomed_ref@.contains(t.photo_id),
                { !contains_id(doomed_ref, t.photo_id) }),
            Ghost(|t: PhotoTagRow| !doomed@.contains(t.photo_id)),
        );
        crate::order::retain_where(
            &mut self.album_photos,
            (|t: &AlbumPhotoRow| -> (keep: bool)
                ensures
                    keep == !doomed_ref@.contains(t.photo_id),
                { !contains_id(doomed_ref, t.photo_id) }),
            Ghost(|t: AlbumPhotoRow| !doomed@.contains(t.photo_id)),
        );
        proof {
            let prop0 = |a: PhotoRecord, b: PhotoRecord|
                a.id != b.id && !(a.library_id == b.library_id && a.path@ == b.path@);
            crate::order::lemma_filter_pairwise(
                old(self).photos@,
                |p: PhotoRecord| p.library_id != library_id,
                prop0,
            );
            let prop1 = |a: PhotoTagRow, b: PhotoTagRow| a != b;
            crate::order::lemma_filter_pairwise(
                old(self).photo_tags@,
                |t: PhotoTagRow| !doomed@.contains(t.photo_id),
                prop1,
            );
            let ft = old(self).photo_tags@.filter(|t: PhotoTagRow| !doomed@.contains(t.photo_id));
            assert forall|a: int, b: int| 0 <= a < b < ft.len() implies #[trigger] ft[a]
                != #[trigger] ft[b] by {
                assert(prop1(ft[a], ft[b]));
            }
            let prop2 = |a: AlbumPhotoRow, b: AlbumPhotoRow|
                !(a.album_id == b.album_id && a.photo_id == b.photo_id) && !(a.album_id
                    == b.album_id && a.position == b.position);
            crate::order::lemma_filter_pairwise(
                old(self).album_photos@,
                |t: AlbumPhotoRow| !doomed@.contains(t.photo_id),
                prop2,
            );
            let fa = old(self).album_photos@.filter(
                |t: AlbumPhotoRow| !doomed@.contains(t.photo_id),
            );
            assert forall|a: int, b: int| 0 <= a < b < fa.len() implies !((#[trigger] fa[a]).album_id
                == (#[trigger] fa[b]).album_id && fa[a].photo_id == fa[b].photo_id) && !(
            fa[a].album_id == fa[b].album_id && fa[a].position == fa[b].position) by {
                assert(prop2(fa[a], fa[b]));
            }
            crate::order::lemma_filter_equiv(
                old(self).photo_tags@,
                |t: PhotoTagRow| !doomed@.contains(t.photo_id),
                |t: PhotoTagRow|
                    !(exists|i: int|
                        0 <= i < old(self).photos@.len() && (#[trigger] old(self).photos@[i]).library_id
                            == library_id && old(self).photos@[i].id == t.photo_id),
            );
            crate::order::lemma_filter_equiv(
                old(self).album_photos@,
                |t: AlbumPhotoRow| !doomed@.contains(t.photo_id),
                |t: AlbumPhotoRow|
                    !(exists|i: int|
                        0 <= i < old(self).photos@.len() && (#[trigger] old(self).photos@[i]).library_id
                            == library_id && old(self).photos@[i].id == t.photo_id),
            );
            let f = old(self).photos@.filter(|p: PhotoRecord| p.library_id != library_id);
            assert forall|a: int, b: int| 0 <= a < b < f.len() implies (#[trigger] f[a]).id
                != (#[trigger] f[b]).id && !(f[a].library_id == f[b].library_id && f[a].path@
                == f[b].path@) by {
                assert(prop0(f[a], f[b]));
            }
            assert forall|k: int| 0 <= k < f.len() implies 0 < (#[trigger] f[k]).id
                < old(self).next_photo_id by {
                assert(old(self).photos@.contains(f[k]));
                let j = choose|j: int|
                    0 <= j < old(self).photos@.len() && old(self).photos@[j] == f[k];
                assert(0 < old(self).photos@[j].id < old(self).next_photo_id);
            }
        }
    }
}

/// The index of the first photo row with this id, or `-1`.
pub open spec fn photo_index_by_id(photos: Seq<PhotoRecord>, id: i64) -> int
    decreases photos.len(),
{
    if photos.len() == 0 {
        -1
    } else if photos[0].id == id {
        0
    } else {
        let r = photo_index_by_id(photos.drop_first(), id);
        if r < 0 {
            -1
        } else {
            r + 1
        }
    }
}

pub proof fn lemma_photo_index_by_id(photos: Seq<PhotoRecord>, id: i64)
    ensures
        photo_index_by_id(photos, id) >= 0 ==> {
            &&& photo_index_by_id(photos, id) < photos.len()
            &&& photos[photo_index_by_id(photos, id)].id == id
            &&& forall|j: int| 0 <= j < photo_index_by_id(photos, id) ==> photos[j].id != id
        },
        photo_index_by_id(photos, id) < 0 ==> photo_index_by_id(photos, id) == -1 && (forall|j: int|
            0 <= j < photos.len() ==> photos[j].id != id),
    decreases photos.len(),
{
    if photos.len() > 0 && photos[0].id != id {
        lemma_photo_index_by_id(photos.drop_first(), id);
        let rest = photos.drop_first();
        let r = photo_index_by_id(rest, id);
        if r >= 0 {
            assert(rest[r] == photos[r + 1]);
            assert forall|j: int| 0 <= j < r + 1 implies photos[j].id != id by {
                if j > 0 {
                    assert(rest[j - 1] == photos[j]);
                }
            }
        } else {
            assert forall|j: int| 0 <= j < photos.len() implies photos[j].id != id by {
                if j > 0 {
                    assert(rest[j - 1] == photos[j]);
                }
            }
        }
    }
}

impl Catalog {
    /// Removes a library row together with all of its photos; the photos'
    /// tag and album associations go with them.
    pub fn remove_library(&mut self, library_id: i64)
        requires
            old(self).wf(),
        ensures
            final(self).wf(),
            final(self).libraries@ == old(self).libraries@.filter(
                |l: LibraryRow| l.id != library_id,
            ),
            final(self).photos@ == old(self).photos@.filter(
                |p: PhotoRecord| p.library_id != library_id,
            ),
            final(self).tags@ == old(self).tags@,
            final(self).albums@ == old(self).albums@,
            final(self).photo_tags@ == old(self).photo_tags@.filter(
                |t: PhotoTagRow|
                    !(exists|i: int|
                        0 <= i < old(self).photos@.len() && (#[trigger] old(
                            self,
                        ).photos@[i]).library_id == library_id && old(self).photos@[i].id
                            == t.photo_id),
            ),
            final(self).album_photos@ == old(self).album_photos@.filter(
                |t: AlbumPhotoRow|
                    !(exists|i: int|
                        0 <= i < old(self).photos@.len() && (#[trigger] old(
                            self,
                        ).photos@[i]).library_id == library_id && old(self).photos@[i].id
                            == t.photo_id),
            ),
    {
        self.clear_photos_for_library(library_id);
        let ghost mid = *self;
        crate::order::retain_where(
            &mut self.libraries,
            (|l: &LibraryRow| -> (keep: bool)
                ensures
                    keep == (l.id != library_id),
                { l.id != library_id }),
            Ghost(|l: LibraryRow| l.id != library_id),
        );
        proof {
            let prop = |a: LibraryRow, b: LibraryRow|
                a.id != b.id && a.root_path@ != b.root_path@;
            crate::order::lemma_filter_pairwise(
                mid.libraries@,
                |l: LibraryRow| l.id != library_id,
                prop,
            );
            let f = mid.libraries@.filter(|l: LibraryRow| l.id != library_id);
            assert forall|a: int, b: int| 0 <= a < b < f.len() implies (#[trigger] f[a]).id
                != (#[trigger] f[b]).id && f[a].root_path@ != f[b].root_path@ by {
                assert(prop(f[a], f[b]));
            }
            assert forall|k: int| 0 <= k < f.len() implies 0 < (#[trigger] f[k]).id
                < mid.next_library_id by {
                assert(mid.libraries@.contains(f[k]));
                let j = choose|j: int| 0 <= j < mid.libraries@.len() && mid.libraries@[j] == f[k];
                assert(0 < mid.libraries@[j].id < mid.next_library_id);
            }
        }
    }

    /// Finds the index of the photo row with this id.
    pub fn find_photo_index(&self, photo_id: i64) -> (r: Option<usize>)
        ensures
            match r {
                Option::Some(i) => photo_index_by_id(self.photos@, photo_id) == i,
                Option::None => photo_index_by_id(self.photos@, photo_id) == -1,
            },
    {
        proof {
            lemma_photo_index_by_id(self.photos@, photo_id);
        }
        let mut i: usize = 0;
        while i < self.photos.len()
            invariant
                0 <= i <= self.photos@.len(),
                forall|j: int| 0 <= j < i ==> (#[trigger] self.photos@[j]).id != photo_id,
            decreases self.photos@.len() - i,
        {
            if self.photos[i].id == photo_id {
                proof {
                    lemma_photo_index_by_id(self.photos@, photo_id);
                    let k = photo_index_by_id(self.photos@, photo_id);
                    if k < i {
                        assert(self.photos@[k].id != photo_id);
                    }
                    if k > i as int || k < 0 {
                        assert(self.photos@[i as int].id == photo_id);
                    }
                }
                return Some(i);
            }
            i = i + 1;
        }
        proof {
            lemma_photo_index_by_id(self.photos@, photo_id);
        }
        None
    }

    /// Looks a photo up by id, soft-deleted rows included.
    pub fn get_photo_by_id(&self, photo_id: i64) -> (r: Option<PhotoRecord>)
        ensures
            ({
                let i = photo_index_by_id(self.photos@, photo_id);
                match r {
                    Option::Some(p) => i >= 0 && p@ == self.photos@[i]@,
                    Option::None => i == -1,
                }
            }),
    {
        proof {
            lemma_photo_index_by_id(self.photos@, photo_id);
        }
        let mut i: usize = 0;
        while i < self.photos.len()
            invariant
                0 <= i <= self.photos@.len(),
                forall|j: int| 0 <= j < i ==> (#[trigger] self.photos@[j]).id != photo_id,
            decreases self.photos@.len() - i,
        {
            if self.photos[i].id == photo_id {
                proof {
                    lemma_photo_index_by_id(self.photos@, photo_id);
                    assert(photo_index_by_id(self.photos@, photo_id) == i as int) by {
                        let k = photo_index_by_id(self.photos@, photo_id);
                        if k < i {
                            assert(self.photos@[k].id != photo_id);
                        }
                        if k > i as int || k < 0 {
                            assert(self.photos@[i as int].id == photo_id);
                        }
                    }
                }
                return Some(copy_photo(&self.photos[i]));
            }
            i = i + 1;
        }
        proof {
            lemma_photo_index_by_id(self.photos@, photo_id);
        }
        None
    }

    /// Flips a photo's favorite flag (read, then write back) and returns
    /// the new value; an unknown id is refused.
    pub fn toggle_favorite(&mut self, photo_id: i64) -> (r: Result<bool, CatalogError>)
        requires
            old(self).wf(),
        ensures
            final(self).wf(),
            final(self).libraries@ == old(self).libraries@,
            final(self).tags@ == old(self).tags@,
            final(self).photo_tags@ == old(self).photo_tags@,
            final(self).albums@ == old(self).albums@,
            final(self).album_photos@ == old(self).album_photos@,
            final(self).next_photo_id == old(self).next_photo_id,
            toggle_favorite_rel(*old(self), *final(self), photo_id, r),
    {
        proof {
            lemma_photo_index_by_id(old(self).photos@, photo_id);
        }
        let ghost orig = self.photos@;
        let mut i: usize = 0;
        while i < self.photos.len()
            invariant
                0 <= i <= self.photos@.len(),
                *self == *old(self),
                old(self).wf(),
                forall|j: int| 0 <= j < i ==> (#[trigger] orig[j]).id != photo_id,
                orig == self.photos@,
            decreases self.photos@.len() - i,
        {
            if self.photos[i].id == photo_id {
                proof {
                    lemma_photo_index_by_id(orig, photo_id);
                    assert(photo_index_by_id(orig, photo_id) == i as int) by {
                        let k = photo_index_by_id(orig, photo_id);
                        if k < i {
                            assert(orig[k].id != photo_id);
                        }
                        if k > i as int || k < 0 {
                            assert(orig[i as int].id == photo_id);
                        }
                    }
                }
                let row = self.photos.remove(i);
                let flipped = !row.is_favorite;
                let replacement = PhotoRecord { is_favorite: flipped, ..row };
                self.photos.insert(i, replacement);
                proof {
                    assert(self.photos@ =~= orig.update(i as int, self.photos@[i as int]));
                    assert(self.photos@[i as int]@ =~= PhotoView {
                        is_favorite: flipped,
                        ..orig[i as int]@
                    });
                }
                return Ok(flipped);
            }
            i = i + 1;
        }
        Err(CatalogError::PhotoNotFound)
    }

    /// Marks the given photos deleted at `now`; ids that match nothing are
    /// ignored. Reversible: the rows stay in the catalog.
    pub fn soft_delete(&mut self, photo_ids: &Vec<i64>, now: &str)
        requires
            old(self).wf(),
        ensures
            final(self).wf(),
            final(self).libraries@ == old(self).libraries@,
            final(self).tags@ == old(self).tags@,
            final(self).photo_tags@ == old(self).photo_tags@,
            final(self).albums@ == old(self).albums@,
            final(self).album_photos@ == old(self).album_photos@,
            final(self).next_photo_id == old(self).next_photo_id,
            final(self).photos@.len() == old(self).photos@.len(),
            forall|i: int|
                0 <= i < old(self).photos@.len() ==> {
                    let o = #[trigger] old(self).photos@[i];
                    if photo_ids@.contains(o.id) {
                        final(self).photos@[i]@ == soft_deleted_view(o@, now@)
                    } else {
                        final(self).photos@[i] == o
                    }
                },
    {
        let ghost orig = self.photos@;
        let mut i: usize = 0;
        while i < self.photos.len()
            invariant
                0 <= i <= self.photos@.len(),
                old(self).wf(),
                self.photos@.len() == orig.len(),
                orig == old(self).photos@,
                self.libraries@ == old(self).libraries@,
                self.tags@ == old(self).tags@,
                self.photo_tags@ == old(self).photo_tags@,
                self.albums@ == old(self).albums@,
                self.album_photos@ == old(self).album_photos@,
                self.next_library_id == old(self).next_library_id,
                self.next_photo_id == old(self).next_photo_id,
                self.next_tag_id == old(self).next_tag_id,
                self.next_album_id == old(self).next_album_id,
                forall|j: int|
                    0 <= j < i ==> {
                        let o = #[trigger] orig[j];
                        if photo_ids@.contains(o.id) {
                            self.photos@[j]@ == soft_deleted_view(o@, now@)
                        } else {
                            self.photos@[j] == o
                        }
                    },
                forall|j: int| i <= j < orig.len() ==> #[trigger] self.photos@[j] == orig[j],
            decreases self.photos@.len() - i,
        {
            let id = self.photos[i].id;
            if contains_id(photo_ids, id) {
                let ghost pre = self.photos@;
                let row = self.photos.remove(i);
                let replacement = PhotoRecord {
                    is_deleted: true,
                    deleted_at: Some(now.to_owned()),
                    ..row
                };
                self.photos.insert(i, replacement);
                proof {
                    assert(self.photos@ =~= pre.update(i as int, self.photos@[i as int]));
                    assert(self.photos@[i as int]@ =~= soft_deleted_view(orig[i as int]@, now@));
                }
            }
            i = i + 1;
        }
        proof {
            assert forall|a: int, b: int| 0 <= a < b < self.photos@.len() implies (#[trigger] self
                .photos@[a]).id != (#[trigger] self.photos@[b]).id && !(self.photos@[a].library_id
                == self.photos@[b].library_id && self.photos@[a].path@
                == self.photos@[b].path@) by {
                assert(self.photos@[a].id == orig[a].id && self.photos@[a].library_id
                    == orig[a].library_id && self.photos@[a].path@ == orig[a].path@);
                assert(self.photos@[b].id == orig[b].id && self.photos@[b].library_id
                    == orig[b].library_id && self.photos@[b].path@ == orig[b].path@);
                assert(orig[a].id != orig[b].id && !(orig[a].library_id == orig[b].library_id
                    && orig[a].path@ == orig[b].path@));
            }
            assert forall|a: int| 0 <= a < self.photos@.len() implies 0 < (#[trigger] self
                .photos@[a]).id < self.next_photo_id by {
                assert(self.photos@[a].id == orig[a].id);
                assert(0 < orig[a].id < old(self).next_photo_id);
            }
        }
    }

    /// Clears the deletion flag and timestamp of the given photos; ids that
    /// match nothing are ignored.
    pub fn restore_from_trash(&mut self, photo_ids: &Vec<i64>)
        requires
            old(self).wf(),
        ensures
            final(self).wf(),
            final(self).libraries@ == old(self).libraries@,
            final(self).tags@ == old(self).tags@,
            final(self).photo_tags@ == old(self).photo_tags@,
            final(self).albums@ == old(self).albums@,
            final(self).album_photos@ == old(self).album_photos@,
            final(self).next_photo_id == old(self).next_photo_id,
            final(self).photos@.len() == old(self).photos@.len(),
            forall|i: int|
                0 <= i < old(self).photos@.len() ==> {
                    let o = #[trigger] old(self).photos@[i];
                    if photo_ids@.contains(o.id) {
                        final(self).photos@[i]@ == restored_view(o@)
                    } else {
                        final(self).photos@[i] == o
                    }
                },
    {
        let ghost orig = self.photos@;
        let mut i: usize = 0;
        while i < self.photos.len()
            invariant
                0 <= i <= self.photos@.len(),
                old(self).wf(),
                self.photos@.len() == orig.len(),
                orig == old(self).photos@,
                self.libraries@ == old(self).libraries@,
                self.tags@ == old(self).tags@,
                self.photo_tags@ == old(self).photo_tags@,
                self.albums@ == old(self).albums@,
                self.album_photos@ == old(self).album_photos@,
                self.next_library_id == old(self).next_library_id,
                self.next_photo_id == old(self).next_photo_id,
                self.next_tag_id == old(self).next_tag_id,
                self.next_album_id == old(self).next_album_id,
                forall|j: int|
                    0 <= j < i ==> {
                        let o = #[trigger] orig[j];
                        if photo_ids@.contains(o.id) {
                            self.photos@[j]@ == restored_view(o@)
                        } else {
                            self.photos@[j] == o
                        }
                    },
                forall|j: int| i <= j < orig.len() ==> #[trigger] self.photos@[j] == orig[j],
            decreases self.photos@.len() - i,
        {
            let id = self.photos[i].id;
            if contains_id(photo_ids, id) {
                let ghost pre = self.photos@;
                let row = self.photos.remove(i);
                let replacement = PhotoRecord { is_deleted: false, deleted_at: None, ..row };
                self.photos.insert(i, replacement);
                proof {
                    assert(self.photos@ =~= pre.update(i as int, self.photos@[i as int]));
                    assert(self.photos@[i as int]@ =~= restored_view(orig[i as int]@));
                }
            }
            i = i + 1;
        }
        proof {
            assert forall|a: int, b: int| 0 <= a < b < self.photos@.len() implies (#[trigger] self
                .photos@[a]).id != (#[trigger] self.photos@[b]).id && !(self.photos@[a].library_id
                == self.photos@[b].library_id && self.photos@[a].path@
                == self.photos@[b].path@) by {
                assert(self.photos@[a].id == orig[a].id && self.photos@[a].library_id
                    == orig[a].library_id && self.photos@[a].path@ == orig[a].path@);
                assert(self.photos@[b].id == orig[b].id && self.photos@[b].library_id
                    == orig[b].library_id && self.photos@[b].path@ == orig[b].path@);
                assert(orig[a].id != orig[b].id && !(orig[a].library_id == orig[b].library_id
                    && orig[a].path@ == orig[b].path@));
            }
            assert forall|a: int| 0 <= a < self.photos@.len() implies 0 < (#[trigger] self
                .photos@[a]).id < self.next_photo_id by {
                assert(self.photos@[a].id == orig[a].id);
                assert(0 < orig[a].id < old(self).next_photo_id);
            }
        }
    }
}

/// The views of a vector of strings.
pub open spec fn str_views(s: Seq<String>) -> Seq<Seq<char>> {
    s.map_values(|x: String| x@)
}

/// What a hard delete leaves and returns: processing each id in order, the
/// path of the first matching row (if any) is collected and every row with
/// that id is removed.
pub open spec fn hard_delete_photos_spec(photos: Seq<PhotoRecord>, ids: Seq<i64>) -> (
    Seq<PhotoRecord>,
    Seq<Seq<char>>,
)
    decreases ids.len(),
{
    if ids.len() == 0 {
        (photos, Seq::empty())
    } else {
        let prev = hard_delete_photos_spec(photos, ids.drop_last());
        let id = ids.last();
        let i = photo_index_by_id(prev.0, id);
        if i >= 0 {
            (prev.0.filter(|p: PhotoRecord| p.id != id), prev.1.push(prev.0[i].path@))
        } else {
            prev
        }
    }
}

/// A hard delete leaves exactly the rows whose id was not named.
pub proof fn lemma_hard_delete_filter(photos: Seq<PhotoRecord>, ids: Seq<i64>)
    ensures
        hard_delete_photos_spec(photos, ids).0 == photos.filter(
            |p: PhotoRecord| !ids.contains(p.id),
        ),
    decreases ids.len(),
{
    broadcast use vstd::seq_lib::group_filter_ensures;

    if ids.len() == 0 {
        assert forall|m: int| 0 <= m < photos.len() implies !ids.contains(
            (#[trigger] photos[m]).id,
        ) by {
            if ids.contains(photos[m].id) {
                let t = choose|t: int| 0 <= t < ids.len() && ids[t] == photos[m].id;
            }
        }
        crate::order::lemma_filter_all(photos, |p: PhotoRecord| !ids.contains(p.id));
    } else {
        let dl = ids.drop_last();
        let id = ids.last();
        lemma_hard_delete_filter(photos, dl);
        let p0 = hard_delete_photos_spec(photos, dl).0;
        let i = photo_index_by_id(p0, id);
        lemma_photo_index_by_id(p0, id);
        assert forall|x: i64| #[trigger] ids.contains(x) == (dl.contains(x) || x == id) by {
            if ids.contains(x) {
                let k = choose|k: int| 0 <= k < ids.len() && ids[k] == x;
                if k < ids.len() - 1 {
                    assert(dl[k] == x);
                    assert(dl.contains(x));
                }
            }
            if dl.contains(x) {
                let k = choose|k: int| 0 <= k < dl.len() && dl[k] == x;
                assert(ids[k] == x);
            }
            if x == id {
                assert(ids[ids.len() - 1] == x);
            }
        }
        if i >= 0 {
            crate::order::lemma_filter_compose(
                photos,
                |p: PhotoRecord| !dl.contains(p.id),
                |p: PhotoRecord| p.id != id,
                |p: PhotoRecord| !dl.contains(p.id) && p.id != id,
            );
            assert forall|m: int| 0 <= m < photos.len() implies ((!dl.contains(
                (#[trigger] photos[m]).id,
            ) && photos[m].id != id)) == (!ids.contains(photos[m].id)) by {
                assert(ids.contains(photos[m].id) == (dl.contains(photos[m].id) || photos[m].id
                    == id));
            }
            crate::order::lemma_filter_equiv(
                photos,
                |p: PhotoRecord| !dl.contains(p.id) && p.id != id,
                |p: PhotoRecord| !ids.contains(p.id),
            );
        } else {
            assert forall|m: int| 0 <= m < photos.len() implies (!dl.contains(
                (#[trigger] photos[m]).id,
            )) == (!ids.contains(photos[m].id)) by {
                let e = photos[m];
                assert(ids.contains(e.id) == (dl.contains(e.id) || e.id == id));
                if e.id == id && !dl.contains(e.id) {
                    assert(photos.filter(|p: PhotoRecord| !dl.contains(p.id)).contains(e));
                    assert(p0.contains(e));
                    let t = choose|t: int| 0 <= t < p0.len() && p0[t] == e;
                    assert(p0[t].id != id);
                }
            }
            crate::order::lemma_filter_equiv(
                photos,
                |p: PhotoRecord| !dl.contains(p.id),
                |p: PhotoRecord| !ids.contains(p.id),
            );
        }
    }
}

impl Catalog {
    /// Permanently removes the given photos and their tag and album
    /// associations, and returns the removed rows' paths (one per id that
    /// matched, in the order the ids were given) so the caller may unlink
    /// the files.
    pub fn hard_delete_photos(&mut self, photo_ids: &Vec<i64>) -> (r: Vec<String>)
        requires
            old(self).wf(),
        ensures
            final(self).wf(),
            final(self).libraries@ == old(self).libraries@,
            final(self).tags@ == old(self).tags@,
            final(self).albums@ == old(self).albums@,
            final(self).next_photo_id == old(self).next_photo_id,
            final(self).photos@ == hard_delete_photos_spec(old(self).photos@, photo_ids@).0,
            str_views(r@) == hard_delete_photos_spec(old(self).photos@, photo_ids@).1,
            final(self).photos@ == old(self).photos@.filter(
                |p: PhotoRecord| !photo_ids@.contains(p.id),
            ),
            final(self).photo_tags@ == old(self).photo_tags@.filter(
                |t: PhotoTagRow| !photo_ids@.contains(t.photo_id),
            ),
            final(self).album_photos@ == old(self).album_photos@.filter(
                |t: AlbumPhotoRow| !photo_ids@.contains(t.photo_id),
            ),
    {
        let mut out: Vec<String> = Vec::new();
        let mut k: usize = 0;
        let ghost mut done: Seq<i64> = Seq::empty();
        proof {
            assert(photo_ids@.subrange(0, 0) =~= Seq::<i64>::empty());
            assert(hard_delete_photos_spec(old(self).photos@, photo_ids@.subrange(0, 0)).0
                == old(self).photos@);
            assert(str_views(out@) =~= Seq::<Seq<char>>::empty());
            crate::order::lemma_filter_all(
                old(self).photo_tags@,
                |t: PhotoTagRow| !done.contains(t.photo_id),
            );
            crate::order::lemma_filter_all(
                old(self).album_photos@,
                |t: AlbumPhotoRow| !done.contains(t.photo_id),
            );
        }
        while k < photo_ids.len()
            invariant
                0 <= k <= photo_ids@.len(),
                old(self).wf(),
                self.libraries@ == old(self).libraries@,
                self.tags@ == old(self).tags@,
                self.albums@ == old(self).albums@,
                self.next_library_id == old(self).next_library_id,
                self.next_photo_id == old(self).next_photo_id,
                self.next_tag_id == old(self).next_tag_id,
                self.next_album_id == old(self).next_album_id,
                self.photos@ == hard_delete_photos_spec(
                    old(self).photos@,
                    photo_ids@.subrange(0, k as int),
                ).0,
                str_views(out@) == hard_delete_photos_spec(
                    old(self).photos@,
                    photo_ids@.subrange(0, k as int),
                ).1,
                done == photo_ids@.subrange(0, k as int),
                self.photo_tags@ == old(self).photo_tags@.filter(
                    |t: PhotoTagRow| !done.contains(t.photo_id),
                ),
                self.album_photos@ == old(self).album_photos@.filter(
                    |t: AlbumPhotoRow| !done.contains(t.photo_id),
                ),
            decreases photo_ids@.len() - k,
        {
            let id = photo_ids[k];
            let ghost pre = photo_ids@.subrange(0, k as int);
            let ghost post = photo_ids@.subrange(0, k + 1 as int);
            let ghost cur = self.photos@;
            proof {
                assert(post.drop_last() =~= pre);
                assert(post.last() == photo_ids@[k as int]);
                lemma_photo_index_by_id(cur, id);
            }
            // Collect the path of the first matching row, if any.
            let ghost out_pre = out@;
            match self.find_photo_index(id) {
                Some(i) => {
                    out.push(self.photos[i].path.clone());
                    proof {
                        lemma_photo_index_by_id(cur, id);
                        assert(str_views(out@) =~= str_views(out_pre).push(cur[i as int].path@));
                    }
                },
                None => {},
            }
            crate::order::retain_where(
                &mut self.photos,
                (|p: &PhotoRecord| -> (keep: bool)
                    ensures
                        keep == (p.id != id),
                    { p.id != id }),
                Ghost(|p: PhotoRecord| p.id != id),
            );
            crate::order::retain_where(
                &mut self.photo_tags,
                (|t: &PhotoTagRow| -> (keep: bool)
                    ensures
                        keep == (t.photo_id != id),
                    { t.photo_id != id }),
                Ghost(|t: PhotoTagRow| t.photo_id != id),
            );
            crate::order::retain_where(
                &mut self.album_photos,
                (|t: &AlbumPhotoRow| -> (keep: bool)
                    ensures
                        keep == (t.photo_id != id),
                    { t.photo_id != id }),
                Ghost(|t: AlbumPhotoRow| t.photo_id != id),
            );
            proof {
                broadcast use vstd::seq_lib::group_filter_ensures;

                assert forall|x: i64| #[trigger] post.contains(x) == (pre.contains(x) || x
                    == id) by {
                    if post.contains(x) {
                        let m = choose|m: int| 0 <= m < post.len() && post[m] == x;
                        if m < post.len() - 1 {
                            assert(pre[m] == x);
                            assert(pre.contains(x));
                        }
                    }
                    if pre.contains(x) {
                        let m = choose|m: int| 0 <= m < pre.len() && pre[m] == x;
                        assert(post[m] == x);
                    }
                    if x == id {
                        assert(post[post.len() - 1] == x);
                    }
                }
                lemma_photo_index_by_id(cur, id);
                if photo_index_by_id(cur, id) < 0 {
                    crate::order::lemma_filter_all(cur, |p: PhotoRecord| p.id != id);
                }
                crate::order::lemma_filter_compose(
                    old(self).photo_tags@,
                    |t: PhotoTagRow| !done.contains(t.photo_id),
                    |t: PhotoTagRow| t.photo_id != id,
                    |t: PhotoTagRow| !done.contains(t.photo_id) && t.photo_id != id,
                );
                crate::order::lemma_filter_equiv(
                    old(self).photo_tags@,
                    |t: PhotoTagRow| !done.contains(t.photo_id) && t.photo_id != id,
                    |t: PhotoTagRow| !post.contains(t.photo_id),
                );
                crate::order::lemma_filter_compose(
                    old(self).album_photos@,
                    |t: AlbumPhotoRow| !done.contains(t.photo_id),
                    |t: AlbumPhotoRow| t.photo_id != id,
                    |t: AlbumPhotoRow| !done.contains(t.photo_id) && t.photo_id != id,
                );
                crate::order::lemma_filter_equiv(
                    old(self).album_photos@,
                    |t: AlbumPhotoRow| !done.contains(t.photo_id) && t.photo_id != id,
                    |t: AlbumPhotoRow| !post.contains(t.photo_id),
                );
                done = post;
            }
            k = k + 1;
        }
        proof {
            assert(photo_ids@.subrange(0, photo_ids@.len() as int) =~= photo_ids@);
            assert(done == photo_ids@);
            assert((|t: PhotoTagRow| !done.contains(t.photo_id)) =~= (|t: PhotoTagRow|
                !photo_ids@.contains(t.photo_id)));
            assert((|t: AlbumPhotoRow| !done.contains(t.photo_id)) =~= (|t: AlbumPhotoRow|
                !photo_ids@.contains(t.photo_id)));
            lemma_hard_delete_filter(old(self).photos@, photo_ids@);
            assert((|p: PhotoRecord| !done.contains(p.id)) =~= (|p: PhotoRecord|
                !photo_ids@.contains(p.id)));
            let f = old(self).photos@.filter(|p: PhotoRecord| !photo_ids@.contains(p.id));
            let prop0 = |a: PhotoRecord, b: PhotoRecord|
                a.id != b.id && !(a.library_id == b.library_id && a.path@ == b.path@);
            crate::order::lemma_filter_pairwise(
                old(self).photos@,
                |p: PhotoRecord| !photo_ids@.contains(p.id),
                prop0,
            );
            assert forall|a: int, b: int| 0 <= a < b < f.len() implies (#[trigger] f[a]).id
                != (#[trigger] f[b]).id && !(f[a].library_id == f[b].library_id && f[a].path@
                == f[b].path@) by {
                assert(prop0(f[a], f[b]));
            }
            assert forall|m: int| 0 <= m < f.len() implies 0 < (#[trigger] f[m]).id
                < old(self).next_photo_id by {
                assert(old(self).photos@.contains(f[m]));
                let j = choose|j: int|
                    0 <= j < old(self).photos@.len() && old(self).photos@[j] == f[m];
                assert(0 < old(self).photos@[j].id < old(self).next_photo_id);
            }
            let prop1 = |a: PhotoTagRow, b: PhotoTagRow| a != b;
            crate::order::lemma_filter_pairwise(
                old(self).photo_tags@,
                |t: PhotoTagRow| !photo_ids@.contains(t.photo_id),
                prop1,
            );
            let ft = old(self).photo_tags@.filter(
                |t: PhotoTagRow| !photo_ids@.contains(t.photo_id),
            );
            assert forall|a: int, b: int| 0 <= a < b < ft.len() implies #[trigger] ft[a]
                != #[trigger] ft[b] by {
                assert(prop1(ft[a], ft[b]));
            }
            let prop2 = |a: AlbumPhotoRow, b: AlbumPhotoRow|
                !(a.album_id == b.album_id && a.photo_id == b.photo_id) && !(a.album_id
                    == b.album_id && a.position == b.position);
            crate::order::lemma_filter_pairwise(
                old(self).album_photos@,
                |t: AlbumPhotoRow| !photo_ids@.contains(t.photo_id),
                prop2,
            );
            let fa = old(self).album_photos@.filter(
                |t: AlbumPhotoRow| !photo_ids@.contains(t.photo_id),
            );
            assert forall|a: int, b: int| 0 <= a < b < fa.len() implies !((#[trigger] fa[a]).album_id
                == (#[trigger] fa[b]).album_id && fa[a].photo_id == fa[b].photo_id) && !(
            fa[a].album_id == fa[b].album_id && fa[a].position == fa[b].position) by {
                assert(prop2(fa[a], fa[b]));
            }
        }
        out
    }
}

impl Catalog {
    /// Renames a photo: the stored filename changes and its path is rebuilt
    /// in the old parent directory. The new path is returned so the caller
    /// may rename the file on disk. Refused for an unknown id or when the
    /// rebuilt path would collide with another photo of the same library.
    pub fn rename_photo(&mut self, photo_id: i64, new_filename: &str) -> (r: Result<
        String,
        CatalogError,
    >)
        requires
            old(self).wf(),
        ensures
            final(self).wf(),
            final(self).libraries@ == old(self).libraries@,
            final(self).tags@ == old(self).tags@,
            final(self).photo_tags@ == old(self).photo_tags@,
            final(self).albums@ == old(self).albums@,
            final(self).album_photos@ == old(self).album_photos@,
            final(self).next_photo_id == old(self).next_photo_id,
            ({
                let i = photo_index_by_id(old(self).photos@, photo_id);
                match r {
                    Result::Ok(s) => {
                        let np = crate::scan::with_file_name_spec(
                            old(self).photos@[i].path@,
                            new_filename@,
                        );
                        &&& i >= 0
                        &&& s@ == np
                        &&& forall|j: int|
                            0 <= j < old(self).photos@.len() && j != i ==> !((#[trigger] old(
                                self,
                            ).photos@[j]).library_id == old(self).photos@[i].library_id && old(
                                self,
                            ).photos@[j].path@ == np)
                        &&& final(self).photos@.len() == old(self).photos@.len()
                        &&& final(self).photos@[i]@ == (PhotoView {
                            path: np,
                            filename: new_filename@,
                            ..old(self).photos@[i]@
                        })
                        &&& forall|j: int|
                            0 <= j < old(self).photos@.len() && j != i ==> final(self).photos@[j]
                                == old(self).photos@[j]
                    },
                    Result::Err(e) => {
                        &&& final(self).photos@ == old(self).photos@
                        &&& (e == CatalogError::PhotoNotFound <==> i == -1)
                        &&& e == CatalogError::PathTaken ==> i >= 0 && (exists|j: int|
                            0 <= j < old(self).photos@.len() && j != i && (#[trigger] old(
                                self,
                            ).photos@[j]).library_id == old(self).photos@[i].library_id && old(
                                self,
                            ).photos@[j].path@ == crate::scan::with_file_name_spec(
                                old(self).photos@[i].path@,
                                new_filename@,
                            ))
                        &&& (e == CatalogError::PhotoNotFound || e == CatalogError::PathTaken)
                    },
                }
            }),
    {
        let ghost orig = self.photos@;
        let idx = match self.find_photo_index(photo_id) {
            Some(i) => i,
            None => {
                return Err(CatalogError::PhotoNotFound);
            },
        };
        proof {
            lemma_photo_index_by_id(orig, photo_id);
        }
        let new_path = crate::scan::replace_file_name(
            self.photos[idx].path.as_str(),
            new_filename,
        );
        let lib = self.photos[idx].library_id;
        let mut j: usize = 0;
        while j < self.photos.len()
            invariant
                0 <= j <= orig.len(),
                *self == *old(self),
                old(self).wf(),
                orig == self.photos@,
                0 <= idx < orig.len(),
                photo_index_by_id(orig, photo_id) == idx as int,
                lib == orig[idx as int].library_id,
                new_path@ == crate::scan::with_file_name_spec(orig[idx as int].path@, new_filename@),
                forall|m: int|
                    0 <= m < j && m != idx ==> !((#[trigger] orig[m]).library_id == lib && orig[m].path@
                        == new_path@),
            decreases orig.len() - j,
        {
            if j != idx && self.photos[j].library_id == lib && crate::strutil::str_eq(
                self.photos[j].path.as_str(),
                new_path.as_str(),
            ) {
                proof {
                    lemma_photo_index_by_id(orig, photo_id);
                }
                return Err(CatalogError::PathTaken);
            }
            j = j + 1;
        }
        let row = self.photos.remove(idx);
        let replacement = PhotoRecord {
            path: new_path.clone(),
            filename: new_filename.to_owned(),
            ..row
        };
        self.photos.insert(idx, replacement);
        proof {
            lemma_photo_index_by_id(orig, photo_id);
            assert(self.photos@ =~= orig.update(idx as int, self.photos@[idx as int]));
            assert(self.photos@[idx as int]@ =~= PhotoView {
                path: new_path@,
                filename: new_filename@,
                ..orig[idx as int]@
            });
            assert forall|a: int, b: int| 0 <= a < b < self.photos@.len() implies (#[trigger] self
                .photos@[a]).id != (#[trigger] self.photos@[b]).id && !(self.photos@[a].library_id
                == self.photos@[b].library_id && self.photos@[a].path@
                == self.photos@[b].path@) by {
                assert(orig[a].id != orig[b].id && !(orig[a].library_id == orig[b].library_id
                    && orig[a].path@ == orig[b].path@));
                if a == idx {
                    assert(!(orig[b].library_id == lib && orig[b].path@ == new_path@));
                }
                if b == idx {
                    assert(!(orig[a].library_id == lib && orig[a].path@ == new_path@));
                }
            }
            assert forall|a: int| 0 <= a < self.photos@.len() implies 0 < (#[trigger] self
                .photos@[a]).id < self.next_photo_id by {
                assert(0 < orig[a].id < old(self).next_photo_id);
            }
        }
        Ok(new_path)
    }
}

/// The year of an ISO-8601 timestamp: its first four digits.
pub open spec fn ts_year(ts: Seq<char>) -> Option<int> {
    if ts.len() >= 4 && is_digit(ts[0]) && is_digit(ts[1]) && is_digit(ts[2]) && is_digit(
        ts[3],
    ) {
        Option::Some(
            digit_val(ts[0]) * 1000 + digit_val(ts[1]) * 100 + digit_val(ts[2]) * 10 + digit_val(
                ts[3],
            ),
        )
    } else {
        Option::None
    }
}

/// The month of an ISO-8601 timestamp: the two digits after the first dash.
pub open spec fn ts_month(ts: Seq<char>) -> Option<int> {
    if ts.len() >= 7 && ts[4] == '-' && is_digit(ts[5]) && is_digit(ts[6]) {
        Option::Some(digit_val(ts[5]) * 10 + digit_val(ts[6]))
    } else {
        Option::None
    }
}

/// Reads the year of a timestamp string.
pub fn ts_year_of(ts: &str) -> (r: Option<i32>)
    ensures
        match r {
            Option::Some(y) => ts_year(ts@) == Option::Some(y as int),
            Option::None => ts_year(ts@) is None,
        },
{
    let len = ts.unicode_len();
    if len < 4 {
        return None;
    }
    let c0 = ts.get_char(0) as u32;
    let c1 = ts.get_char(1) as u32;
    let c2 = ts.get_char(2) as u32;
    let c3 = ts.get_char(3) as u32;
    if 48 <= c0 && c0 <= 57 && 48 <= c1 && c1 <= 57 && 48 <= c2 && c2 <= 57 && 48 <= c3 && c3
        <= 57 {
        Some((((c0 - 48) * 1000 + (c1 - 48) * 100 + (c2 - 48) * 10 + (c3 - 48)) as i32))
    } else {
        None
    }
}

/// Reads the month of a timestamp string.
pub fn ts_month_of(ts: &str) -> (r: Option<i32>)
    ensures
        match r {
            Option::Some(m) => ts_month(ts@) == Option::Some(m as int),
            Option::None => ts_month(ts@) is None,
        },
{
    let len = ts.unicode_len();
    if len < 7 {
        return None;
    }
    let c4 = ts.get_char(4);
    let c5 = ts.get_char(5) as u32;
    let c6 = ts.get_char(6) as u32;
    if c4 == '-' && 48 <= c5 && c5 <= 57 && 48 <= c6 && c6 <= 57 {
        Some((((c5 - 48) * 10 + (c6 - 48)) as i32))
    } else {
        None
    }
}

/// The photo-listing filter: one library, deleted rows excluded, and the
/// optional year, month, folder and media-kind predicates conjoined. The
/// year and month are read from the effective timestamp; the folder matches
/// exactly or as a parent of a sub-folder.
pub open spec fn matches_photo_filter(
    v: PhotoView,
    library_id: i64,
    year: Option<i32>,
    month: Option<i32>,
    folder: Option<Seq<char>>,
    media: Option<MediaKind>,
) -> bool {
    &&& v.library_id == library_id
    &&& !v.is_deleted
    &&& match year {
        Option::Some(y) => ts_year(effective_ts(v)) == Option::Some(y as int),
        Option::None => true,
    }
    &&& match month {
        Option::Some(m) => ts_month(effective_ts(v)) == Option::Some(m as int),
        Option::None => true,
    }
    &&& match folder {
        Option::Some(f) => v.folder_rel == f || is_prefix_of(f, v.folder_rel),
        Option::None => true,
    }
    &&& match media {
        Option::Some(t) => v.media_type == t,
        Option::None => true,
    }
}

/// The listing's effective limit: the requested one (100 when absent),
/// clamped to the server-side hard cap of 10,000.
pub open spec fn effective_limit(limit: Option<i64>) -> int {
    let x = match limit {
        Option::Some(l) => l as int,
        Option::None => 100,
    };
    if x < 0 {
        0
    } else if x > 10000 {
        10000
    } else {
        x
    }
}

/// The listing's effective offset: the requested one, never negative.
pub open spec fn effective_offset(offset: Option<i64>) -> int {
    let x = match offset {
        Option::Some(o) => o as int,
        Option::None => 0,
    };
    if x < 0 {
        0
    } else {
        x
    }
}

/// One page of a listing: `lim` elements from `off`, clipped to the end.
pub open spec fn page_spec<T>(s: Seq<T>, off: int, lim: int) -> Seq<T> {
    let lo = if off > s.len() {
        s.len() as int
    } else {
        off
    };
    let hi = if off + lim > s.len() {
        s.len() as int
    } else {
        off + lim
    };
    s.subrange(lo, hi)
}

fn matches_photo_filter_exec(p: &PhotoRecord, library_id: i64, params: &GetPhotosParams) -> (r:
    bool)
    ensures
        r == matches_photo_filter(
            p@,
            library_id,
            params.year,
            params.month,
            opt_view(params.folder),
            params.media_type,
        ),
{
    if p.library_id != library_id {
        return false;
    }
    if p.is_deleted {
        return false;
    }
    let eff: &str = match &p.taken_at {
        Some(t) => t.as_str(),
        None => p.modified_at.as_str(),
    };
    match params.year {
        Some(y) => {
            match ts_year_of(eff) {
                Some(got) => {
                    if got != y {
                        return false;
                    }
                },
                None => {
                    return false;
                },
            }
        },
        None => {},
    }
    match params.month {
        Some(m) => {
            match ts_month_of(eff) {
                Some(got) => {
                    if got != m {
                        return false;
                    }
                },
                None => {
                    return false;
                },
            }
        },
        None => {},
    }
    match &params.folder {
        Some(f) => {
            if !(crate::strutil::str_eq(p.folder_rel.as_str(), f.as_str())
                || crate::strutil::str_starts_with(p.folder_rel.as_str(), f.as_str())) {
                return false;
            }
        },
        None => {},
    }
    match params.media_type {
        Some(t) => {
            if p.media_type != t {
                return false;
            }
        },
        None => {},
    }
    true
}

impl Catalog {
    /// Lists one library's photos: deleted rows are excluded, the optional
    /// filters conjoin, the rows come in the default order (effective
    /// timestamp descending, path ascending on ties), and the result is one
    /// page of at most 10,000 rows.
    pub fn get_photos(&self, library_id: i64, params: &GetPhotosParams) -> (r: Vec<PhotoRecord>)
        ensures
            ({
                let matching = photo_views(self.photos@).filter(
                    |v: PhotoView| matches_photo_filter(
                        v,
                        library_id,
                        params.year,
                        params.month,
                        opt_view(params.folder),
                        params.media_type,
                    ),
                );
                photo_views(r@) == page_spec(
                    crate::order::sort_spec(matching),
                    effective_offset(params.offset),
                    effective_limit(params.limit),
                )
            }),
            sorted_by(photo_views(r@), crate::order::le_rel::<PhotoView>()),
    {
        let ghost pred = |v: PhotoView| matches_photo_filter(
            v,
            library_id,
            params.year,
            params.month,
            opt_view(params.folder),
            params.media_type,
        );
        let ghost vmap = |p: PhotoRecord| p@;
        let mut matched: Vec<PhotoRecord> = Vec::new();
        let mut i: usize = 0;
        proof {
            reveal(Seq::filter);
            assert(photo_views(self.photos@.subrange(0, 0)).filter(pred) =~= Seq::<
                PhotoView,
            >::empty());
            assert(photo_views(matched@) =~= Seq::<PhotoView>::empty());
        }
        while i < self.photos.len()
            invariant
                0 <= i <= self.photos@.len(),
                pred == (|v: PhotoView| matches_photo_filter(
                    v,
                    library_id,
                    params.year,
                    params.month,
                    opt_view(params.folder),
                    params.media_type,
                )),
                vmap == (|p: PhotoRecord| p@),
                sorted_by(matched@, crate::order::le_rel::<PhotoRecord>()),
                photo_views(matched@) == crate::order::sort_spec(
                    photo_views(self.photos@.subrange(0, i as int)).filter(pred),
                ),
            decreases self.photos@.len() - i,
        {
            let ghost pre_take = self.photos@.subrange(0, i as int);
            let ghost post_take = self.photos@.subrange(0, i + 1 as int);
            proof {
                reveal(Seq::filter);
                assert(post_take.drop_last() =~= pre_take);
                assert(post_take.last() == self.photos@[i as int]);
                assert(photo_views(post_take) =~= photo_views(pre_take).push(
                    self.photos@[i as int]@,
                ));
                assert(photo_views(post_take).drop_last() =~= photo_views(pre_take));
            }
            if matches_photo_filter_exec(&self.photos[i], library_id, params) {
                let ghost matched_pre = matched@;
                let copy = copy_photo(&self.photos[i]);
                proof {
                    assert(copy@ == self.photos@[i as int]@);
                }
                crate::order::sorted_insert(&mut matched, copy);
                proof {
                    crate::order::lemma_ins_spec_map(matched_pre, copy, vmap);
                    assert(matched_pre.map_values(vmap) == photo_views(matched_pre));
                    assert(matched@.map_values(vmap) == photo_views(matched@));
                    let fp = photo_views(pre_take).filter(pred);
                    let v = self.photos@[i as int]@;
                    assert(photo_views(post_take).filter(pred) =~= fp.push(v));
                    assert(fp.push(v).drop_last() =~= fp);
                    assert(fp.push(v).last() == v);
                    assert(crate::order::sort_spec(fp.push(v)) == crate::order::ins_spec(
                        crate::order::sort_spec(fp),
                        v,
                    ));
                }
            } else {
                proof {
                    assert(photo_views(post_take).filter(pred) =~= photo_views(pre_take).filter(
                        pred,
                    ));
                }
            }
            i = i + 1;
        }
        proof {
            assert(self.photos@.subrange(0, self.photos@.len() as int) =~= self.photos@);
            crate::order::lemma_sort_spec_ensures(photo_views(self.photos@).filter(pred));
        }
        // One page of the sorted rows.
        let lim_i64: i64 = match params.limit {
            Some(l) => if l < 0 {
                0
            } else if l > 10000 {
                10000
            } else {
                l
            },
            None => 100,
        };
        let off_i64: i64 = match params.offset {
            Some(o) => if o < 0 {
                0
            } else {
                o
            },
            None => 0,
        };
        let total: usize = matched.len();
        let lo: usize = if (off_i64 as u128) > (total as u128) {
            total
        } else {
            off_i64 as usize
        };
        let rem: usize = total - lo;
        let take: usize = if (lim_i64 as u128) > (rem as u128) {
            rem
        } else {
            lim_i64 as usize
        };
        let hi: usize = lo + take;
        let mut out: Vec<PhotoRecord> = Vec::new();
        let mut k: usize = lo;
        proof {
            assert(photo_views(out@) =~= photo_views(matched@).subrange(lo as int, lo as int));
        }
        while k < hi
            invariant
                lo <= k <= hi <= matched@.len(),
                photo_views(out@) == photo_views(matched@).subrange(lo as int, k as int),
            decreases hi - k,
        {
            let ghost out_pre = out@;
            out.push(copy_photo(&matched[k]));
            proof {
                assert(photo_views(out@) =~= photo_views(out_pre).push(matched@[k as int]@));
                assert(photo_views(matched@).subrange(lo as int, k + 1 as int) =~= photo_views(
                    matched@,
                ).subrange(lo as int, k as int).push(photo_views(matched@)[k as int]));
            }
            k = k + 1;
        }
        proof {
            let sorted = crate::order::sort_spec(photo_views(self.photos@).filter(pred));
            assert(photo_views(matched@) == sorted);
            assert(lo == if effective_offset(params.offset) > sorted.len() {
                sorted.len() as int
            } else {
                effective_offset(params.offset)
            });
            assert(hi == if effective_offset(params.offset) + effective_limit(params.limit)
                > sorted.len() {
                sorted.len() as int
            } else {
                effective_offset(params.offset) + effective_limit(params.limit)
            });
            assert(photo_views(out@) =~= page_spec(
                sorted,
                effective_offset(params.offset),
                effective_limit(params.limit),
            ));
            assert forall|a: int, b: int| 0 <= a < b < photo_views(out@).len() implies #[trigger]
            crate::order::le_rel::<PhotoView>()(
                photo_views(out@)[a],
                photo_views(out@)[b],
            ) by {
                assert(photo_views(out@)[a] == photo_views(matched@)[lo + a]);
                assert(photo_views(out@)[b] == photo_views(matched@)[lo + b]);
                assert(crate::order::le_rel::<PhotoRecord>()(
                    matched@[lo + a],
                    matched@[lo + b],
                ));
            }
        }
        out
    }
}

/// The search-result order: capture time descending, rows without a
/// capture time last.
pub open spec fn search_le(a: PhotoView, b: PhotoView) -> bool {
    match (a.taken_at, b.taken_at) {
        (Option::Some(x), Option::Some(y)) => lex_le(y, x),
        (Option::Some(x), Option::None) => true,
        (Option::None, Option::Some(y)) => false,
        (Option::None, Option::None) => true,
    }
}

/// A photo row under the search-result order.
pub struct SearchPhoto(pub PhotoRecord);

/// The view of a search-ordered row.
pub struct SearchView(pub PhotoView);

impl SortOrd for SearchView {
    open spec fn le_spec(&self, other: &Self) -> bool {
        search_le(self.0, other.0)
    }

    proof fn lemma_le_total(a: &Self, b: &Self) {
        match (a.0.taken_at, b.0.taken_at) {
            (Option::Some(x), Option::Some(y)) => {
                lemma_lex_le_total(x, y);
            },
            _ => {},
        }
    }

    proof fn lemma_le_trans(a: &Self, b: &Self, c: &Self) {
        match (a.0.taken_at, b.0.taken_at, c.0.taken_at) {
            (Option::Some(x), Option::Some(y), Option::Some(z)) => {
                lemma_lex_le_trans(z, y, x);
            },
            _ => {},
        }
    }
}

impl SortOrd for SearchPhoto {
    open spec fn le_spec(&self, other: &Self) -> bool {
        search_le(self.0@, other.0@)
    }

    proof fn lemma_le_total(a: &Self, b: &Self) {
        SearchView::lemma_le_total(&SearchView(a.0@), &SearchView(b.0@));
    }

    proof fn lemma_le_trans(a: &Self, b: &Self, c: &Self) {
        SearchView::lemma_le_trans(&SearchView(a.0@), &SearchView(b.0@), &SearchView(c.0@));
    }
}

impl SortOrdExec for SearchPhoto {
    fn le(&self, other: &Self) -> (r: bool) {
        match (&self.0.taken_at, &other.0.taken_at) {
            (Some(x), Some(y)) => crate::strutil::str_le(y.as_str(), x.as_str()),
            (Some(_), None) => true,
            (None, Some(_)) => false,
            (None, None) => true,
        }
    }
}

/// Whether some tag of this name-matched set is attached to the photo: the
/// search predicate's tag clause.
pub open spec fn tag_match(
    v: PhotoView,
    q: Seq<char>,
    tags: Seq<TagRecord>,
    pairs: Seq<PhotoTagRow>,
) -> bool {
    exists|pi: int|
        0 <= pi < pairs.len() && (#[trigger] pairs[pi]).photo_id == v.id && (exists|ti: int|
            0 <= ti < tags.len() && (#[trigger] tags[ti]).id == pairs[pi].tag_id && ci_contains(
                tags[ti].name@,
                q,
            ))
}

/// The search predicate: within one library, deleted rows excluded, and the
/// query contained case-insensitively (and literally — no wildcards) in the
/// path, filename, folder, capture time, camera make or model, or one of
/// the photo's tag names.
pub open spec fn matches_search(
    v: PhotoView,
    library_id: i64,
    q: Seq<char>,
    tags: Seq<TagRecord>,
    pairs: Seq<PhotoTagRow>,
) -> bool {
    &&& v.library_id == library_id
    &&& !v.is_deleted
    &&& {
        ||| ci_contains(v.path, q)
        ||| ci_contains(v.filename, q)
        ||| ci_contains(v.folder_rel, q)
        ||| (v.taken_at matches Option::Some(t) && ci_contains(t, q))
        ||| (v.camera_make matches Option::Some(t) && ci_contains(t, q))
        ||| (v.camera_model matches Option::Some(t) && ci_contains(t, q))
        ||| tag_match(v, q, tags, pairs)
    }
}

/// The search limit: the requested one, clamped to the hard cap of 1,000.
pub open spec fn search_limit(limit: i64) -> int {
    if limit < 0 {
        0
    } else if limit > 1000 {
        1000
    } else {
        limit as int
    }
}

impl Catalog {
    /// The index of the first tag row with this id.
    fn find_tag_index(&self, tag_id: i64) -> (r: Option<usize>)
        ensures
            match r {
                Option::Some(i) => 0 <= i < self.tags@.len() && self.tags@[i as int].id == tag_id,
                Option::None => forall|j: int|
                    0 <= j < self.tags@.len() ==> (#[trigger] self.tags@[j]).id != tag_id,
            },
    {
        let mut i: usize = 0;
        while i < self.tags.len()
            invariant
                0 <= i <= self.tags@.len(),
                forall|j: int| 0 <= j < i ==> (#[trigger] self.tags@[j]).id != tag_id,
            decreases self.tags@.len() - i,
        {
            if self.tags[i].id == tag_id {
                return Some(i);
            }
            i = i + 1;
        }
        None
    }

    fn search_matches_exec(&self, p: &PhotoRecord, library_id: i64, query: &str) -> (r: bool)
        requires
            self.wf(),
        ensures
            r == matches_search(p@, library_id, query@, self.tags@, self.photo_tags@),
    {
        if p.library_id != library_id || p.is_deleted {
            return false;
        }
        if crate::scan::ci_contains_str(p.path.as_str(), query) {
            return true;
        }
        if crate::scan::ci_contains_str(p.filename.as_str(), query) {
            return true;
        }
        if crate::scan::ci_contains_str(p.folder_rel.as_str(), query) {
            return true;
        }
        match &p.taken_at {
            Some(t) => {
                if crate::scan::ci_contains_str(t.as_str(), query) {
                    return true;
                }
            },
            None => {},
        }
        match &p.camera_make {
            Some(t) => {
                if crate::scan::ci_contains_str(t.as_str(), query) {
                    return true;
                }
            },
            None => {},
        }
        match &p.camera_model {
            Some(t) => {
                if crate::scan::ci_contains_str(t.as_str(), query) {
                    return true;
                }
            },
            None => {},
        }
        let mut pi: usize = 0;
        while pi < self.photo_tags.len()
            invariant
                0 <= pi <= self.photo_tags@.len(),
                self.wf(),
                p@.library_id == library_id,
                !p@.is_deleted,
                forall|m: int|
                    0 <= m < pi ==> !((#[trigger] self.photo_tags@[m]).photo_id == p.id && (
                    exists|ti: int|
                        0 <= ti < self.tags@.len() && (#[trigger] self.tags@[ti]).id
                            == self.photo_tags@[m].tag_id && ci_contains(
                            self.tags@[ti].name@,
                            query@,
                        ))),
            decreases self.photo_tags@.len() - pi,
        {
            if self.photo_tags[pi].photo_id == p.id {
                match self.find_tag_index(self.photo_tags[pi].tag_id) {
                    Some(ti) => {
                        if crate::scan::ci_contains_str(self.tags[ti].name.as_str(), query) {
                            proof {
                                assert(tag_match(p@, query@, self.tags@, self.photo_tags@)) by {
                                    assert((#[trigger] self.photo_tags@[pi as int]).photo_id
                                        == p@.id);
                                    assert((#[trigger] self.tags@[ti as int]).id
                                        == self.photo_tags@[pi as int].tag_id);
                                    assert(ci_contains(self.tags@[ti as int].name@, query@));
                                }
                            }
                            return true;
                        }
                        proof {
                            assert forall|tj: int|
                                0 <= tj < self.tags@.len() && (#[trigger] self.tags@[tj]).id
                                    == self.photo_tags@[pi as int].tag_id implies !ci_contains(
                                self.tags@[tj].name@,
                                query@,
                            ) by {
                                if tj != ti {
                                    assert(self.tags@[tj].id != self.tags@[ti as int].id);
                                }
                            }
                        }
                    },
                    None => {},
                }
            }
            pi = pi + 1;
        }
        proof {
            assert(!tag_match(p@, query@, self.tags@, self.photo_tags@));
        }
        false
    }

    /// Searches one library's photos for a query: a literal, case-
    /// insensitive substring match over the indexed text columns and tag
    /// names; results come newest captured first (rows without a capture
    /// time last), at most 1,000 of them.
    pub fn search_photos(&self, library_id: i64, query: &str, limit: i64) -> (r: Vec<PhotoRecord>)
        requires
            self.wf(),
        ensures
            ({
                let matching = photo_views(self.photos@).filter(
                    |v: PhotoView| matches_search(v, library_id, query@, self.tags@, self.photo_tags@),
                );
                let sorted = crate::order::sort_spec(
                    matching.map_values(|v: PhotoView| SearchView(v)),
                );
                photo_views(r@) == page_spec(sorted, 0, search_limit(limit)).map_values(
                    |w: SearchView| w.0,
                )
            }),
            sorted_by(
                photo_views(r@).map_values(|v: PhotoView| SearchView(v)),
                crate::order::le_rel::<SearchView>(),
            ),
    {
        let ghost pred = |v: PhotoView| matches_search(
            v,
            library_id,
            query@,
            self.tags@,
            self.photo_tags@,
        );
        let ghost wrapv = |v: PhotoView| SearchView(v);
        let ghost svmap = |sp: SearchPhoto| SearchView(sp.0@);
        let mut matched: Vec<SearchPhoto> = Vec::new();
        let mut i: usize = 0;
        proof {
            reveal(Seq::filter);
            assert(photo_views(self.photos@.subrange(0, 0)).filter(pred).map_values(wrapv) =~= Seq::<
                SearchView,
            >::empty());
            assert(matched@.map_values(svmap) =~= Seq::<SearchView>::empty());
        }
        while i < self.photos.len()
            invariant
                0 <= i <= self.photos@.len(),
                self.wf(),
                pred == (|v: PhotoView| matches_search(
                    v,
                    library_id,
                    query@,
                    self.tags@,
                    self.photo_tags@,
                )),
                wrapv == (|v: PhotoView| SearchView(v)),
                svmap == (|sp: SearchPhoto| SearchView(sp.0@)),
                sorted_by(matched@, crate::order::le_rel::<SearchPhoto>()),
                matched@.map_values(svmap) == crate::order::sort_spec(
                    photo_views(self.photos@.subrange(0, i as int)).filter(pred).map_values(wrapv),
                ),
            decreases self.photos@.len() - i,
        {
            let ghost pre_take = self.photos@.subrange(0, i as int);
            let ghost post_take = self.photos@.subrange(0, i + 1 as int);
            proof {
                reveal(Seq::filter);
                assert(post_take.drop_last() =~= pre_take);
                assert(post_take.last() == self.photos@[i as int]);
                assert(photo_views(post_take) =~= photo_views(pre_take).push(
                    self.photos@[i as int]@,
                ));
                assert(photo_views(post_take).drop_last() =~= photo_views(pre_take));
            }
            if self.search_matches_exec(&self.photos[i], library_id, query) {
                let ghost matched_pre = matched@;
                let copy = SearchPhoto(copy_photo(&self.photos[i]));
                proof {
                    assert(copy.0@ == self.photos@[i as int]@);
                }
                crate::order::sorted_insert(&mut matched, copy);
                proof {
                    crate::order::lemma_ins_spec_map(matched_pre, copy, svmap);
                    let fp = photo_views(pre_take).filter(pred).map_values(wrapv);
                    let v = SearchView(self.photos@[i as int]@);
                    assert(photo_views(post_take).filter(pred).map_values(wrapv) =~= fp.push(v));
                    assert(fp.push(v).drop_last() =~= fp);
                    assert(fp.push(v).last() == v);
                    assert(crate::order::sort_spec(fp.push(v)) == crate::order::ins_spec(
                        crate::order::sort_spec(fp),
                        v,
                    ));
                }
            } else {
                proof {
                    assert(photo_views(post_take).filter(pred).map_values(wrapv) =~= photo_views(
                        pre_take,
                    ).filter(pred).map_values(wrapv));
                }
            }
            i = i + 1;
        }
        proof {
            assert(self.photos@.subrange(0, self.photos@.len() as int) =~= self.photos@);
        }
        let lim: usize = if limit < 0 {
            0
        } else if limit > 1000 {
            1000
        } else {
            limit as usize
        };
        let total: usize = matched.len();
        let hi: usize = if lim > total {
            total
        } else {
            lim
        };
        let mut out: Vec<PhotoRecord> = Vec::new();
        let mut k: usize = 0;
        proof {
            assert(photo_views(out@) =~= Seq::<PhotoView>::empty());
        }
        while k < hi
            invariant
                0 <= k <= hi <= matched@.len(),
                photo_views(out@) == matched@.map_values(svmap).subrange(0, k as int).map_values(
                    |w: SearchView| w.0,
                ),
                svmap == (|sp: SearchPhoto| SearchView(sp.0@)),
                sorted_by(matched@, crate::order::le_rel::<SearchPhoto>()),
                forall|m: int|
                    0 <= m < k ==> #[trigger] photo_views(out@)[m] == matched@[m].0@,
            decreases hi - k,
        {
            let ghost out_pre = out@;
            out.push(copy_photo(&matched[k].0));
            proof {
                let ws = matched@.map_values(svmap);
                assert(photo_views(out@) =~= photo_views(out_pre).push(matched@[k as int].0@));
                assert(ws.subrange(0, k + 1 as int) =~= ws.subrange(0, k as int).push(
                    ws[k as int],
                ));
                assert(ws.subrange(0, k + 1 as int).map_values(|w: SearchView| w.0) =~= ws.subrange(
                    0,
                    k as int,
                ).map_values(|w: SearchView| w.0).push(ws[k as int].0));
            }
            k = k + 1;
        }
        proof {
            let sorted = crate::order::sort_spec(
                photo_views(self.photos@).filter(pred).map_values(wrapv),
            );
            assert(matched@.map_values(svmap) == sorted);
            assert(photo_views(out@) =~= page_spec(sorted, 0, search_limit(limit)).map_values(
                |w: SearchView| w.0,
            ));
            let outw = photo_views(out@).map_values(wrapv);
            assert forall|a: int, b: int| 0 <= a < b < outw.len() implies #[trigger]
            crate::order::le_rel::<SearchView>()(outw[a], outw[b]) by {
                assert(crate::order::le_rel::<SearchPhoto>()(matched@[a], matched@[b]));
                assert(photo_views(out@)[a] == matched@[a].0@);
                assert(photo_views(out@)[b] == matched@[b].0@);
                assert(outw[a] == SearchView(photo_views(out@)[a]));
                assert(outw[b] == SearchView(photo_views(out@)[b]));
            }
            assert(sorted_by(outw, crate::order::le_rel::<SearchView>()));
        }
        out
    }
}

/// The index of the first library row with this id, or `-1`.
pub open spec fn lib_index_by_id(libs: Seq<LibraryRow>, id: i64) -> int
    decreases libs.len(),
{
    if libs.len() == 0 {
        -1
    } else if libs[0].id == id {
        0
    } else {
        let r = lib_index_by_id(libs.drop_first(), id);
        if r < 0 {
            -1
        } else {
            r + 1
        }
    }
}

pub proof fn lemma_lib_index_by_id(libs: Seq<LibraryRow>, id: i64)
    ensures
        lib_index_by_id(libs, id) >= 0 ==> {
            &&& lib_index_by_id(libs, id) < libs.len()
            &&& libs[lib_index_by_id(libs, id)].id == id
            &&& forall|j: int| 0 <= j < lib_index_by_id(libs, id) ==> libs[j].id != id
        },
        lib_index_by_id(libs, id) < 0 ==> lib_index_by_id(libs, id) == -1 && (forall|j: int|
            0 <= j < libs.len() ==> libs[j].id != id),
    decreases libs.len(),
{
    if libs.len() > 0 && libs[0].id != id {
        lemma_lib_index_by_id(libs.drop_first(), id);
        let rest = libs.drop_first();
        let r = lib_index_by_id(rest, id);
        if r >= 0 {
            assert(rest[r] == libs[r + 1]);
            assert forall|j: int| 0 <= j < r + 1 implies libs[j].id != id by {
                if j > 0 {
                    assert(rest[j - 1] == libs[j]);
                }
            }
        } else {
            assert forall|j: int| 0 <= j < libs.len() implies libs[j].id != id by {
                if j > 0 {
                    assert(rest[j - 1] == libs[j]);
                }
            }
        }
    }
}

/// The human-readable source label of a library: the leaf name of its root
/// directory, or `Library` when the root has no leaf.
pub open spec fn source_label(libs: Seq<LibraryRow>, library_id: i64) -> Seq<char> {
    let i = lib_index_by_id(libs, library_id);
    if i >= 0 {
        let leaf = file_name_spec(libs[i].root_path@);
        if leaf.len() == 0 {
            "Library"@
        } else {
            leaf
        }
    } else {
        "Library"@
    }
}

/// The cross-library listing filter: one of the named libraries (which must
/// still exist), deleted rows excluded.
pub open spec fn matches_across(v: PhotoView, ids: Seq<i64>, libs: Seq<LibraryRow>) -> bool {
    ids.contains(v.library_id) && !v.is_deleted && lib_index_by_id(libs, v.library_id) >= 0
}

impl SortOrd for LibraryRow {
    /// Library listings are ordered by root path.
    open spec fn le_spec(&self, other: &Self) -> bool {
        lex_le(self.root_path@, other.root_path@)
    }

    proof fn lemma_le_total(a: &Self, b: &Self) {
        lemma_lex_le_total(a.root_path@, b.root_path@);
    }

    proof fn lemma_le_trans(a: &Self, b: &Self, c: &Self) {
        lemma_lex_le_trans(a.root_path@, b.root_path@, c.root_path@);
    }
}

impl SortOrdExec for LibraryRow {
    fn le(&self, other: &Self) -> (r: bool) {
        crate::strutil::str_le(self.root_path.as_str(), other.root_path.as_str())
    }
}

/// How one listed library corresponds to its row: same id and root, the
/// display name derived from the root's leaf, and the photo count over all
/// of its rows (deleted ones included).
pub open spec fn lib_info_matches(
    info: LibraryInfo,
    row: LibraryRow,
    photos: Seq<PhotoRecord>,
) -> bool {
    &&& info.id == row.id
    &&& info.root_path@ == row.root_path@
    &&& info.name@ == {
        let leaf = file_name_spec(row.root_path@);
        if leaf.len() == 0 {
            "Library"@
        } else {
            leaf
        }
    }
    &&& info.photo_count == photos.filter(|p: PhotoRecord| p.library_id == row.id).len()
}

fn copy_library(l: &LibraryRow) -> (r: LibraryRow)
    ensures
        r.id == l.id,
        r.root_path@ == l.root_path@,
        r.created_at@ == l.created_at@,
        r.le_spec(l) && l.le_spec(&r),
{
    proof {
        lemma_lex_le_refl(l.root_path@);
    }
    LibraryRow { id: l.id, root_path: l.root_path.clone(), created_at: l.created_at.clone() }
}

impl Catalog {
    /// The index of the first library row with this id.
    fn find_library_index(&self, library_id: i64) -> (r: Option<usize>)
        ensures
            match r {
                Option::Some(i) => lib_index_by_id(self.libraries@, library_id) == i,
                Option::None => lib_index_by_id(self.libraries@, library_id) == -1,
            },
    {
        proof {
            lemma_lib_index_by_id(self.libraries@, library_id);
        }
        let mut i: usize = 0;
        while i < self.libraries.len()
            invariant
                0 <= i <= self.libraries@.len(),
                forall|j: int| 0 <= j < i ==> (#[trigger] self.libraries@[j]).id != library_id,
            decreases self.libraries@.len() - i,
        {
            if self.libraries[i].id == library_id {
                proof {
                    lemma_lib_index_by_id(self.libraries@, library_id);
                    let k = lib_index_by_id(self.libraries@, library_id);
                    if k < i {
                        assert(self.libraries@[k].id != library_id);
                    }
                    if k > i as int || k < 0 {
                        assert(self.libraries@[i as int].id == library_id);
                    }
                }
                return Some(i);
            }
            i = i + 1;
        }
        proof {
            lemma_lib_index_by_id(self.libraries@, library_id);
        }
        None
    }

    /// The source label of a library, for cross-library listings.
    fn source_label_of(&self, library_id: i64) -> (r: String)
        ensures
            r@ == source_label(self.libraries@, library_id),
    {
        match self.find_library_index(library_id) {
            Some(i) => {
                proof {
                    lemma_lib_index_by_id(self.libraries@, library_id);
                }
                let leaf = crate::scan::file_name_of(self.libraries[i].root_path.as_str());
                if leaf.unicode_len() == 0 {
                    "Library".to_owned()
                } else {
                    leaf.to_owned()
                }
            },
            None => "Library".to_owned(),
        }
    }

    /// Lists photos across several libraries at once: deleted rows are
    /// excluded, rows come in the default order, each carries the source
    /// label of its library, and the result is one page of at most
    /// 10,000 rows.
    pub fn get_photos_all_libraries(&self, library_ids: &Vec<i64>, limit: i64, offset: i64) -> (r:
        Vec<PhotoRecord>)
        ensures
            ({
                let matching = photo_views(self.photos@).filter(
                    |v: PhotoView| matches_across(v, library_ids@, self.libraries@),
                );
                let sorted = crate::order::sort_spec(matching);
                photo_views(r@) == page_spec(
                    sorted,
                    effective_offset(Option::Some(offset)),
                    effective_limit(Option::Some(limit)),
                ).map_values(
                    |v: PhotoView| PhotoView {
                        source: source_label(self.libraries@, v.library_id),
                        ..v
                    },
                )
            }),
            sorted_by(photo_views(r@), crate::order::le_rel::<PhotoView>()),
    {
        let ghost pred = |v: PhotoView| matches_across(v, library_ids@, self.libraries@);
        let ghost vmap = |p: PhotoRecord| p@;
        let mut matched: Vec<PhotoRecord> = Vec::new();
        let mut i: usize = 0;
        proof {
            reveal(Seq::filter);
            assert(photo_views(self.photos@.subrange(0, 0)).filter(pred) =~= Seq::<
                PhotoView,
            >::empty());
            assert(photo_views(matched@) =~= Seq::<PhotoView>::empty());
        }
        while i < self.photos.len()
            invariant
                0 <= i <= self.photos@.len(),
                pred == (|v: PhotoView| matches_across(v, library_ids@, self.libraries@)),
                vmap == (|p: PhotoRecord| p@),
                sorted_by(matched@, crate::order::le_rel::<PhotoRecord>()),
                photo_views(matched@) == crate::order::sort_spec(
                    photo_views(self.photos@.subrange(0, i as int)).filter(pred),
                ),
            decreases self.photos@.len() - i,
        {
            let ghost pre_take = self.photos@.subrange(0, i as int);
            let ghost post_take = self.photos@.subrange(0, i + 1 as int);
            proof {
                reveal(Seq::filter);
                assert(post_take.drop_last() =~= pre_take);
                assert(post_take.last() == self.photos@[i as int]);
                assert(photo_views(post_take) =~= photo_views(pre_take).push(
                    self.photos@[i as int]@,
                ));
                assert(photo_views(post_take).drop_last() =~= photo_views(pre_take));
            }
            let p = &self.photos[i];
            let included = !p.is_deleted && contains_id(library_ids, p.library_id)
                && self.find_library_index(p.library_id).is_some();
            if included {
                let ghost matched_pre = matched@;
                let copy = copy_photo(&self.photos[i]);
                proof {
                    assert(copy@ == self.photos@[i as int]@);
                }
                crate::order::sorted_insert(&mut matched, copy);
                proof {
                    crate::order::lemma_ins_spec_map(matched_pre, copy, vmap);
                    let fp = photo_views(pre_take).filter(pred);
                    let v = self.photos@[i as int]@;
                    assert(photo_views(post_take).filter(pred) =~= fp.push(v));
                    assert(fp.push(v).drop_last() =~= fp);
                    assert(fp.push(v).last() == v);
                    assert(crate::order::sort_spec(fp.push(v)) == crate::order::ins_spec(
                        crate::order::sort_spec(fp),
                        v,
                    ));
                }
            } else {
                proof {
                    assert(photo_views(post_take).filter(pred) =~= photo_views(pre_take).filter(
                        pred,
                    ));
                }
            }
            i = i + 1;
        }
        proof {
            assert(self.photos@.subrange(0, self.photos@.len() as int) =~= self.photos@);
        }
        let lim_i64: i64 = if limit < 0 {
            0
        } else if limit > 10000 {
            10000
        } else {
            limit
        };
        let off_i64: i64 = if offset < 0 {
            0
        } else {
            offset
        };
        let total: usize = matched.len();
        let lo: usize = if (off_i64 as u128) > (total as u128) {
            total
        } else {
            off_i64 as usize
        };
        let rem: usize = total - lo;
        let take: usize = if (lim_i64 as u128) > (rem as u128) {
            rem
        } else {
            lim_i64 as usize
        };
        let hi: usize = lo + take;
        let mut out: Vec<PhotoRecord> = Vec::new();
        let mut k: usize = lo;
        let ghost smap = |v: PhotoView| PhotoView {
            source: source_label(self.libraries@, v.library_id),
            ..v
        };
        proof {
            assert(photo_views(out@) =~= photo_views(matched@).subrange(lo as int, lo as int)
                .map_values(smap));
        }
        while k < hi
            invariant
                lo <= k <= hi <= matched@.len(),
                smap == (|v: PhotoView| PhotoView {
                    source: source_label(self.libraries@, v.library_id),
                    ..v
                }),
                photo_views(out@) == photo_views(matched@).subrange(lo as int, k as int)
                    .map_values(smap),
                forall|m: int|
                    0 <= m < out@.len() ==> #[trigger] photo_views(out@)[m] == smap(
                        photo_views(matched@)[lo + m],
                    ),
            decreases hi - k,
        {
            let ghost out_pre = out@;
            let copy = copy_photo(&matched[k]);
            let label = self.source_label_of(copy.library_id);
            let stamped = PhotoRecord { source: label, ..copy };
            out.push(stamped);
            proof {
                assert(photo_views(out@) =~= photo_views(out_pre).push(
                    smap(photo_views(matched@)[k as int]),
                )) by {
                    assert(photo_views(out@).last() =~= smap(matched@[k as int]@));
                }
                let sub = photo_views(matched@).subrange(lo as int, k + 1 as int);
                assert(sub =~= photo_views(matched@).subrange(lo as int, k as int).push(
                    photo_views(matched@)[k as int],
                ));
                assert(sub.map_values(smap) =~= photo_views(matched@).subrange(
                    lo as int,
                    k as int,
                ).map_values(smap).push(smap(photo_views(matched@)[k as int])));
            }
            k = k + 1;
        }
        proof {
            let sorted = crate::order::sort_spec(photo_views(self.photos@).filter(pred));
            assert(photo_views(matched@) == sorted);
            assert(lo == if effective_offset(Option::Some(offset)) > sorted.len() {
                sorted.len() as int
            } else {
                effective_offset(Option::Some(offset))
            });
            assert(hi == if effective_offset(Option::Some(offset)) + effective_limit(
                Option::Some(limit),
            ) > sorted.len() {
                sorted.len() as int
            } else {
                effective_offset(Option::Some(offset)) + effective_limit(Option::Some(limit))
            });
            assert(photo_views(out@) =~= page_spec(
                sorted,
                effective_offset(Option::Some(offset)),
                effective_limit(Option::Some(limit)),
            ).map_values(smap));
            assert forall|a: int, b: int| 0 <= a < b < photo_views(out@).len() implies #[trigger]
            crate::order::le_rel::<PhotoView>()(
                photo_views(out@)[a],
                photo_views(out@)[b],
            ) by {
                assert(crate::order::le_rel::<PhotoRecord>()(matched@[lo + a], matched@[lo + b]));
                assert(photo_views(out@)[a] == smap(photo_views(matched@)[lo + a]));
                assert(photo_views(out@)[b] == smap(photo_views(matched@)[lo + b]));
            }
        }
        out
    }

    /// Lists every library with its display name and photo count, ordered
    /// by root path.
    pub fn get_all_libraries(&self) -> (r: Vec<LibraryInfo>)
        ensures
            r@.len() == self.libraries@.len(),
            forall|k: int|
                0 <= k < r@.len() ==> lib_info_matches(
                    #[trigger] r@[k],
                    crate::order::sort_spec(self.libraries@)[k],
                    self.photos@,
                ),
    {
        let mut rows: Vec<LibraryRow> = Vec::new();
        let mut i: usize = 0;
        proof {
            assert(self.libraries@.subrange(0, 0) =~= Seq::<LibraryRow>::empty());
            assert(rows@ =~= crate::order::sort_spec(self.libraries@.subrange(0, 0)));
        }
        while i < self.libraries.len()
            invariant
                0 <= i <= self.libraries@.len(),
                sorted_by(rows@, crate::order::le_rel::<LibraryRow>()),
                rows@.len() == i,
                forall|m: int|
                    0 <= m < rows@.len() ==> {
                        let sorted = crate::order::sort_spec(
                            self.libraries@.subrange(0, i as int),
                        );
                        (#[trigger] rows@[m]).id == sorted[m].id && rows@[m].root_path@
                            == sorted[m].root_path@
                    },
            decreases self.libraries@.len() - i,
        {
            let ghost pre_take = self.libraries@.subrange(0, i as int);
            let ghost post_take = self.libraries@.subrange(0, i + 1 as int);
            let ghost rows_pre = rows@;
            let copy = copy_library(&self.libraries[i]);
            proof {
                crate::order::lemma_ins_spec_ensures(rows@, copy);
            }
            crate::order::sorted_insert(&mut rows, copy);
            proof {
                assert(post_take.drop_last() =~= pre_take);
                assert(post_take.last() == self.libraries@[i as int]);
                assert(crate::order::sort_spec(post_take) == crate::order::ins_spec(
                    crate::order::sort_spec(pre_take),
                    self.libraries@[i as int],
                ));
                crate::order::lemma_sort_spec_ensures(pre_take);
                lemma_ins_matches(
                    rows_pre,
                    crate::order::sort_spec(pre_take),
                    copy,
                    self.libraries@[i as int],
                );
            }
            i = i + 1;
        }
        proof {
            assert(self.libraries@.subrange(0, self.libraries@.len() as int) =~= self.libraries@);
            crate::order::lemma_sort_spec_ensures(self.libraries@);
        }
        let mut out: Vec<LibraryInfo> = Vec::new();
        let mut k: usize = 0;
        while k < rows.len()
            invariant
                0 <= k <= rows@.len(),
                rows@.len() == self.libraries@.len(),
                out@.len() == k,
                forall|m: int|
                    0 <= m < rows@.len() ==> {
                        let sorted = crate::order::sort_spec(self.libraries@);
                        (#[trigger] rows@[m]).id == sorted[m].id && rows@[m].root_path@
                            == sorted[m].root_path@
                    },
                forall|m: int|
                    0 <= m < k ==> lib_info_matches(
                        #[trigger] out@[m],
                        crate::order::sort_spec(self.libraries@)[m],
                        self.photos@,
                    ),
            decreases rows@.len() - k,
        {
            let row = &rows[k];
            let leaf = crate::scan::file_name_of(row.root_path.as_str());
            let name = if leaf.unicode_len() == 0 {
                "Library".to_owned()
            } else {
                leaf.to_owned()
            };
            let count = self.count_photos_for_library(row.id);
            out.push(
                LibraryInfo { id: row.id, root_path: row.root_path.clone(), name, photo_count: count },
            );
            proof {
                let sorted = crate::order::sort_spec(self.libraries@);
                assert((|p: PhotoRecord| p.library_id == rows@[k as int].id) =~= (|p: PhotoRecord|
                    p.library_id == sorted[k as int].id));
                assert(lib_info_matches(out@.last(), sorted[k as int], self.photos@));
            }
            k = k + 1;
        }
        out
    }
}

/// After inserting an element whose key fields match `x`, a vector that
/// matched a sorted sequence keyfield-wise still matches it.
proof fn lemma_ins_matches(
    rows: Seq<LibraryRow>,
    sorted: Seq<LibraryRow>,
    c: LibraryRow,
    x: LibraryRow,
)
    requires
        rows.len() == sorted.len(),
        forall|m: int|
            0 <= m < rows.len() ==> (#[trigger] rows[m]).id == sorted[m].id && rows[m].root_path@
                == sorted[m].root_path@,
        c.id == x.id,
        c.root_path@ == x.root_path@,
    ensures
        forall|m: int|
            0 <= m < crate::order::ins_spec(rows, c).len() ==> (#[trigger] crate::order::ins_spec(
                rows,
                c,
            )[m]).id == crate::order::ins_spec(sorted, x)[m].id && crate::order::ins_spec(
                rows,
                c,
            )[m].root_path@ == crate::order::ins_spec(sorted, x)[m].root_path@,
    decreases rows.len(),
{
    if rows.len() == 0 {
    } else {
        assert(rows[0].id == sorted[0].id && rows[0].root_path@ == sorted[0].root_path@);
        assert(rows[0].le_spec(&c) == sorted[0].le_spec(&x));
        if rows[0].le_spec(&c) {
            assert forall|m: int| 0 <= m < rows.drop_first().len() implies (#[trigger] rows
                .drop_first()[m]).id == sorted.drop_first()[m].id && rows.drop_first()[m]
                .root_path@ == sorted.drop_first()[m].root_path@ by {
                assert(rows[m + 1].id == sorted[m + 1].id && rows[m + 1].root_path@ == sorted[m
                    + 1].root_path@);
            }
            lemma_ins_matches(rows.drop_first(), sorted.drop_first(), c, x);
            crate::order::lemma_ins_spec_len(rows, c);
            crate::order::lemma_ins_spec_len(sorted, x);
            crate::order::lemma_ins_spec_len(rows.drop_first(), c);
            crate::order::lemma_ins_spec_len(sorted.drop_first(), x);
            assert(crate::order::ins_spec(rows, c) == seq![rows[0]] + crate::order::ins_spec(
                rows.drop_first(),
                c,
            ));
            assert(crate::order::ins_spec(sorted, x) == seq![sorted[0]] + crate::order::ins_spec(
                sorted.drop_first(),
                x,
            ));
            assert forall|m: int|
                0 <= m < crate::order::ins_spec(rows, c).len() implies (
            #[trigger] crate::order::ins_spec(rows, c)[m]).id == crate::order::ins_spec(
                sorted,
                x,
            )[m].id && crate::order::ins_spec(rows, c)[m].root_path@ == crate::order::ins_spec(
                sorted,
                x,
            )[m].root_path@ by {
                if m > 0 {
                    assert(crate::order::ins_spec(rows, c)[m] == crate::order::ins_spec(
                        rows.drop_first(),
                        c,
                    )[m - 1]);
                    assert(crate::order::ins_spec(sorted, x)[m] == crate::order::ins_spec(
                        sorted.drop_first(),
                        x,
                    )[m - 1]);
                }
            }
        } else {
            assert(crate::order::ins_spec(rows, c) == seq![c] + rows);
            assert(crate::order::ins_spec(sorted, x) == seq![x] + sorted);
        }
    }
}

/// One tag's observable fields.
pub open spec fn tag_view(t: TagRecord) -> (i64, Seq<char>, Seq<char>) {
    (t.id, t.name@, t.color@)
}

/// The observable fields of a tag listing.
pub open spec fn tag_views(s: Seq<TagRecord>) -> Seq<(i64, Seq<char>, Seq<char>)> {
    s.map_values(|t: TagRecord| tag_view(t))
}

/// What a run of idempotent pair insertions leaves: each id in order, a
/// pair appended only when it was not already present.
pub open spec fn add_pairs_spec(pairs: Seq<PhotoTagRow>, ids: Seq<i64>, tag_id: i64) -> Seq<
    PhotoTagRow,
>
    decreases ids.len(),
{
    if ids.len() == 0 {
        pairs
    } else {
        let prev = add_pairs_spec(pairs, ids.drop_last(), tag_id);
        let row = PhotoTagRow { photo_id: ids.last(), tag_id };
        if prev.contains(row) {
            prev
        } else {
            prev.push(row)
        }
    }
}

fn copy_tag(t: &TagRecord) -> (r: TagRecord)
    ensures
        tag_view(r) == tag_view(*t),
        r.le_spec(t) && t.le_spec(&r),
{
    proof {
        lemma_lex_le_refl(t.name@);
    }
    TagRecord { id: t.id, name: t.name.clone(), color: t.color.clone() }
}

impl Catalog {
    /// Whether a photo-tag association exists.
    pub fn has_photo_tag(&self, photo_id: i64, tag_id: i64) -> (r: bool)
        ensures
            r == self.photo_tags@.contains(PhotoTagRow { photo_id, tag_id }),
    {
        let mut i: usize = 0;
        while i < self.photo_tags.len()
            invariant
                0 <= i <= self.photo_tags@.len(),
                forall|j: int|
                    0 <= j < i ==> #[trigger] self.photo_tags@[j] != (PhotoTagRow {
                        photo_id,
                        tag_id,
                    }),
            decreases self.photo_tags@.len() - i,
        {
            if self.photo_tags[i].photo_id == photo_id && self.photo_tags[i].tag_id == tag_id {
                proof {
                    assert(self.photo_tags@[i as int] == (PhotoTagRow { photo_id, tag_id }));
                }
                return true;
            }
            i = i + 1;
        }
        proof {
            if self.photo_tags@.contains(PhotoTagRow { photo_id, tag_id }) {
                let j = choose|j: int|
                    0 <= j < self.photo_tags@.len() && #[trigger] self.photo_tags@[j]
                        == (PhotoTagRow { photo_id, tag_id });
            }
        }
        false
    }

    /// Creates a tag under a fresh id; a name already in use is refused.
    pub fn create_tag(&mut self, name: &str, color: &str) -> (r: Result<TagRecord, CatalogError>)
        requires
            old(self).wf(),
            old(self).next_tag_id < i64::MAX,
        ensures
            final(self).wf(),
            final(self).libraries@ == old(self).libraries@,
            final(self).photos@ == old(self).photos@,
            final(self).photo_tags@ == old(self).photo_tags@,
            final(self).albums@ == old(self).albums@,
            final(self).album_photos@ == old(self).album_photos@,
            match r {
                Result::Ok(t) => {
                    &&& forall|j: int|
                        0 <= j < old(self).tags@.len() ==> (#[trigger] old(self).tags@[j]).name@
                            != name@
                    &&& t.id == old(self).next_tag_id
                    &&& t.name@ == name@
                    &&& t.color@ == color@
                    &&& final(self).next_tag_id == old(self).next_tag_id + 1
                    &&& final(self).tags@.len() == old(self).tags@.len() + 1
                    &&& (exists|x: TagRecord|
                        #![trigger tag_view(x)]
                        final(self).tags@ == crate::order::ins_spec(old(self).tags@, x)
                            && tag_view(x) == tag_view(t))
                },
                Result::Err(e) => {
                    &&& e == CatalogError::TagNameTaken
                    &&& (exists|j: int|
                        0 <= j < old(self).tags@.len() && (#[trigger] old(self).tags@[j]).name@
                            == name@)
                    &&& final(self).tags@ == old(self).tags@
                    &&& final(self).next_tag_id == old(self).next_tag_id
                },
            },
    {
        let ghost orig = self.tags@;
        let mut i: usize = 0;
        while i < self.tags.len()
            invariant
                0 <= i <= self.tags@.len(),
                *self == *old(self),
                old(self).wf(),
                orig == self.tags@,
                forall|j: int| 0 <= j < i ==> (#[trigger] orig[j]).name@ != name@,
            decreases self.tags@.len() - i,
        {
            if crate::strutil::str_eq(self.tags[i].name.as_str(), name) {
                return Err(CatalogError::TagNameTaken);
            }
            i = i + 1;
        }
        let id = self.next_tag_id;
        let row = TagRecord { id, name: name.to_owned(), color: color.to_owned() };
        let ghost rowg = row;
        proof {
            crate::order::lemma_ins_spec_ensures(self.tags@, row);
        }
        crate::order::sorted_insert(&mut self.tags, row);
        self.next_tag_id = id + 1;
        let result = TagRecord { id, name: name.to_owned(), color: color.to_owned() };
        proof {
            let ts = self.tags@;
            let prop = |a: TagRecord, b: TagRecord| a.id != b.id && a.name@ != b.name@;
            assert forall|m: int| 0 <= m < orig.len() implies #[trigger] prop(orig[m], rowg)
                && prop(rowg, orig[m]) by {
                assert(0 < orig[m].id < old(self).next_tag_id);
                assert(orig[m].name@ != name@);
            }
            assert forall|a: int, b: int| 0 <= a < b < orig.len() implies #[trigger] prop(
                orig[a],
                orig[b],
            ) by {
                assert(orig[a].id != orig[b].id && orig[a].name@ != orig[b].name@);
            }
            crate::order::lemma_ins_pairwise(orig, rowg, prop);
            assert forall|a: int, b: int| 0 <= a < b < ts.len() implies (#[trigger] ts[a]).id
                != (#[trigger] ts[b]).id && ts[a].name@ != ts[b].name@ by {
                assert(prop(ts[a], ts[b]));
            }
            assert forall|a: int| 0 <= a < ts.len() implies 0 < (#[trigger] ts[a]).id
                < self.next_tag_id by {
                if ts[a] != rowg {
                    assert(orig.contains(ts[a]));
                    let j = choose|j: int| 0 <= j < orig.len() && orig[j] == ts[a];
                    assert(0 < orig[j].id < old(self).next_tag_id);
                }
            }
            assert(tag_view(rowg) == tag_view(result));
            assert(self.tags@ == crate::order::ins_spec(orig, rowg));
        }
        Ok(result)
    }
}

impl Catalog {
    /// Removes a tag and every association that carries it.
    pub fn delete_tag(&mut self, tag_id: i64)
        requires
            old(self).wf(),
        ensures
            final(self).wf(),
            final(self).libraries@ == old(self).libraries@,
            final(self).photos@ == old(self).photos@,
            final(self).albums@ == old(self).albums@,
            final(self).album_photos@ == old(self).album_photos@,
            final(self).tags@ == old(self).tags@.filter(|t: TagRecord| t.id != tag_id),
            final(self).photo_tags@ == old(self).photo_tags@.filter(
                |t: PhotoTagRow| t.tag_id != tag_id,
            ),
    {
        crate::order::retain_where(
            &mut self.tags,
            (|t: &TagRecord| -> (keep: bool)
                ensures
                    keep == (t.id != tag_id),
                { t.id != tag_id }),
            Ghost(|t: TagRecord| t.id != tag_id),
        );
        crate::order::retain_where(
            &mut self.photo_tags,
            (|t: &PhotoTagRow| -> (keep: bool)
                ensures
                    keep == (t.tag_id != tag_id),
                { t.tag_id != tag_id }),
            Ghost(|t: PhotoTagRow| t.tag_id != tag_id),
        );
        proof {
            let prop = |a: TagRecord, b: TagRecord|
                a.id != b.id && a.name@ != b.name@ && a.le_spec(&b);
            assert forall|a: int, b: int| 0 <= a < b < old(self).tags@.len() implies #[trigger]
            prop(old(self).tags@[a], old(self).tags@[b]) by {
                assert(crate::order::le_rel::<TagRecord>()(old(self).tags@[a], old(self).tags@[b]));
            }
            crate::order::lemma_filter_pairwise(
                old(self).tags@,
                |t: TagRecord| t.id != tag_id,
                prop,
            );
            let f = old(self).tags@.filter(|t: TagRecord| t.id != tag_id);
            assert forall|a: int, b: int| 0 <= a < b < f.len() implies (#[trigger] f[a]).id
                != (#[trigger] f[b]).id && f[a].name@ != f[b].name@ && crate::order::le_rel::<
                TagRecord,
            >()(f[a], f[b]) by {
                assert(prop(f[a], f[b]));
            }
            assert forall|a: int| 0 <= a < f.len() implies 0 < (#[trigger] f[a]).id
                < old(self).next_tag_id by {
                assert(old(self).tags@.contains(f[a]));
                let j = choose|j: int| 0 <= j < old(self).tags@.len() && old(self).tags@[j] == f[a];
                assert(0 < old(self).tags@[j].id < old(self).next_tag_id);
            }
            let prop1 = |a: PhotoTagRow, b: PhotoTagRow| a != b;
            crate::order::lemma_filter_pairwise(
                old(self).photo_tags@,
                |t: PhotoTagRow| t.tag_id != tag_id,
                prop1,
            );
            let ft = old(self).photo_tags@.filter(|t: PhotoTagRow| t.tag_id != tag_id);
            assert forall|a: int, b: int| 0 <= a < b < ft.len() implies #[trigger] ft[a]
                != #[trigger] ft[b] by {
                assert(prop1(ft[a], ft[b]));
            }
        }
    }

    /// Lists every tag, ordered by name.
    pub fn get_tags(&self) -> (r: Vec<TagRecord>)
        ensures
            tag_views(r@) == tag_views(self.tags@),
    {
        let mut out: Vec<TagRecord> = Vec::new();
        let mut i: usize = 0;
        proof {
            assert(tag_views(out@) =~= tag_views(self.tags@.subrange(0, 0)));
        }
        while i < self.tags.len()
            invariant
                0 <= i <= self.tags@.len(),
                out@.len() == i,
                tag_views(out@) == tag_views(self.tags@.subrange(0, i as int)),
            decreases self.tags@.len() - i,
        {
            let ghost out_pre = out@;
            out.push(copy_tag(&self.tags[i]));
            proof {
                assert(tag_views(out@) =~= tag_views(out_pre).push(tag_view(self.tags@[i as int])));
                assert(tag_views(self.tags@.subrange(0, i + 1 as int)) =~= tag_views(
                    self.tags@.subrange(0, i as int),
                ).push(tag_view(self.tags@[i as int])));
            }
            i = i + 1;
        }
        proof {
            assert(self.tags@.subrange(0, self.tags@.len() as int) =~= self.tags@);
        }
        out
    }

    /// Attaches a tag to each of the given photos; associations that
    /// already exist are left alone (the operation is idempotent).
    pub fn tag_photos(&mut self, photo_ids: &Vec<i64>, tag_id: i64)
        requires
            old(self).wf(),
        ensures
            final(self).wf(),
            final(self).libraries@ == old(self).libraries@,
            final(self).photos@ == old(self).photos@,
            final(self).tags@ == old(self).tags@,
            final(self).albums@ == old(self).albums@,
            final(self).album_photos@ == old(self).album_photos@,
            final(self).photo_tags@ == add_pairs_spec(old(self).photo_tags@, photo_ids@, tag_id),
    {
        let mut k: usize = 0;
        proof {
            assert(photo_ids@.subrange(0, 0) =~= Seq::<i64>::empty());
        }
        while k < photo_ids.len()
            invariant
                0 <= k <= photo_ids@.len(),
                old(self).wf(),
                self.libraries@ == old(self).libraries@,
                self.photos@ == old(self).photos@,
                self.tags@ == old(self).tags@,
                self.albums@ == old(self).albums@,
                self.album_photos@ == old(self).album_photos@,
                self.next_library_id == old(self).next_library_id,
                self.next_photo_id == old(self).next_photo_id,
                self.next_tag_id == old(self).next_tag_id,
                self.next_album_id == old(self).next_album_id,
                self.photo_tags@ == add_pairs_spec(
                    old(self).photo_tags@,
                    photo_ids@.subrange(0, k as int),
                    tag_id,
                ),
                forall|i: int, j: int|
                    0 <= i < j < self.photo_tags@.len() ==> #[trigger] self.photo_tags@[i]
                        != #[trigger] self.photo_tags@[j],
            decreases photo_ids@.len() - k,
        {
            let ghost pre = photo_ids@.subrange(0, k as int);
            let ghost post = photo_ids@.subrange(0, k + 1 as int);
            let ghost cur = self.photo_tags@;
            proof {
                assert(post.drop_last() =~= pre);
                assert(post.last() == photo_ids@[k as int]);
            }
            let pid = photo_ids[k];
            if !self.has_photo_tag(pid, tag_id) {
                let ghost cur_pre = self.photo_tags@;
                self.photo_tags.push(PhotoTagRow { photo_id: pid, tag_id });
                proof {
                    assert forall|i: int, j: int|
                        0 <= i < j < self.photo_tags@.len() implies #[trigger] self.photo_tags@[i]
                        != #[trigger] self.photo_tags@[j] by {
                        if j == self.photo_tags@.len() - 1 {
                            assert(self.photo_tags@[i] == cur_pre[i]);
                            assert(cur_pre.contains(cur_pre[i]));
                            if self.photo_tags@[i] == self.photo_tags@[j] {
                                assert(cur_pre.contains(PhotoTagRow { photo_id: pid, tag_id }));
                            }
                        }
                    }
                }
            }
            k = k + 1;
        }
        proof {
            assert(photo_ids@.subrange(0, photo_ids@.len() as int) =~= photo_ids@);
        }
    }

    /// Detaches a tag from each of the given photos; absent associations
    /// are ignored.
    pub fn untag_photos(&mut self, photo_ids: &Vec<i64>, tag_id: i64)
        requires
            old(self).wf(),
        ensures
            final(self).wf(),
            final(self).libraries@ == old(self).libraries@,
            final(self).photos@ == old(self).photos@,
            final(self).tags@ == old(self).tags@,
            final(self).albums@ == old(self).albums@,
            final(self).album_photos@ == old(self).album_photos@,
            final(self).photo_tags@ == old(self).photo_tags@.filter(
                |t: PhotoTagRow| !(photo_ids@.contains(t.photo_id) && t.tag_id == tag_id),
            ),
    {
        let ids_ref = &photo_ids;
        crate::order::retain_where(
            &mut self.photo_tags,
            (|t: &PhotoTagRow| -> (keep: bool)
                ensures
                    keep == !(photo_ids@.contains(t.photo_id) && t.tag_id == tag_id),
                {
                    if t.tag_id == tag_id {
                        !contains_id(ids_ref, t.photo_id)
                    } else {
                        true
                    }
                }),
            Ghost(|t: PhotoTagRow| !(photo_ids@.contains(t.photo_id) && t.tag_id == tag_id)),
        );
        proof {
            let prop1 = |a: PhotoTagRow, b: PhotoTagRow| a != b;
            crate::order::lemma_filter_pairwise(
                old(self).photo_tags@,
                |t: PhotoTagRow| !(photo_ids@.contains(t.photo_id) && t.tag_id == tag_id),
                prop1,
            );
            let ft = old(self).photo_tags@.filter(
                |t: PhotoTagRow| !(photo_ids@.contains(t.photo_id) && t.tag_id == tag_id),
            );
            assert forall|a: int, b: int| 0 <= a < b < ft.len() implies #[trigger] ft[a]
                != #[trigger] ft[b] by {
                assert(prop1(ft[a], ft[b]));
            }
        }
    }

    /// Lists the tags attached to one photo, in tag-name order.
    pub fn get_tags_for_photo(&self, photo_id: i64) -> (r: Vec<TagRecord>)
        ensures
            tag_views(r@) == tag_views(
                self.tags@.filter(
                    |t: TagRecord| self.photo_tags@.contains(
                        PhotoTagRow { photo_id, tag_id: t.id },
                    ),
                ),
            ),
    {
        let ghost pred = |t: TagRecord| self.photo_tags@.contains(
            PhotoTagRow { photo_id, tag_id: t.id },
        );
        let mut out: Vec<TagRecord> = Vec::new();
        let mut i: usize = 0;
        proof {
            reveal(Seq::filter);
            assert(tag_views(out@) =~= tag_views(self.tags@.subrange(0, 0).filter(pred)));
        }
        while i < self.tags.len()
            invariant
                0 <= i <= self.tags@.len(),
                pred == (|t: TagRecord| self.photo_tags@.contains(
                    PhotoTagRow { photo_id, tag_id: t.id },
                )),
                tag_views(out@) == tag_views(self.tags@.subrange(0, i as int).filter(pred)),
            decreases self.tags@.len() - i,
        {
            let ghost pre_take = self.tags@.subrange(0, i as int);
            let ghost post_take = self.tags@.subrange(0, i + 1 as int);
            proof {
                reveal(Seq::filter);
                assert(post_take.drop_last() =~= pre_take);
                assert(post_take.last() == self.tags@[i as int]);
            }
            if self.has_photo_tag(photo_id, self.tags[i].id) {
                let ghost out_pre = out@;
                out.push(copy_tag(&self.tags[i]));
                proof {
                    assert(post_take.filter(pred) == pre_take.filter(pred).push(
                        self.tags@[i as int],
                    ));
                    assert(tag_views(out@) =~= tag_views(out_pre).push(
                        tag_view(self.tags@[i as int]),
                    ));
                    assert(tag_views(post_take.filter(pred)) =~= tag_views(
                        pre_take.filter(pred),
                    ).push(tag_view(self.tags@[i as int])));
                }
            } else {
                proof {
                    assert(post_take.filter(pred) == pre_take.filter(pred));
                }
            }
            i = i + 1;
        }
        proof {
            assert(self.tags@.subrange(0, self.tags@.len() as int) =~= self.tags@);
        }
        out
    }

    /// How many photos are marked favorite and not deleted.
    pub fn get_favorites_count(&self) -> (n: u64)
        ensures
            n == self.photos@.filter(|p: PhotoRecord| p.is_favorite && !p.is_deleted).len(),
    {
        let mut n: u64 = 0;
        let mut i: usize = 0;
        proof {
            reveal(Seq::filter);
            assert(self.photos@.subrange(0, 0).filter(
                |p: PhotoRecord| p.is_favorite && !p.is_deleted,
            ) =~= Seq::<PhotoRecord>::empty());
        }
        while i < self.photos.len()
            invariant
                0 <= i <= self.photos@.len(),
                n <= i,
                n == self.photos@.subrange(0, i as int).filter(
                    |p: PhotoRecord| p.is_favorite && !p.is_deleted,
                ).len(),
            decreases self.photos@.len() - i,
        {
            proof {
                reveal(Seq::filter);
                let pre = self.photos@.subrange(0, i as int);
                let post = self.photos@.subrange(0, i + 1 as int);
                assert(post.drop_last() =~= pre);
                assert(post.last() == self.photos@[i as int]);
            }
            if self.photos[i].is_favorite && !self.photos[i].is_deleted {
                n = n + 1;
            }
            i = i + 1;
        }
        proof {
            assert(self.photos@.subrange(0, self.photos@.len() as int) =~= self.photos@);
        }
        n
    }

    /// How many photos sit in the trash.
    pub fn get_trash_count(&self) -> (n: u64)
        ensures
            n == self.photos@.filter(|p: PhotoRecord| p.is_deleted).len(),
    {
        let mut n: u64 = 0;
        let mut i: usize = 0;
        proof {
            reveal(Seq::filter);
            assert(self.photos@.subrange(0, 0).filter(|p: PhotoRecord| p.is_deleted) =~= Seq::<
                PhotoRecord,
            >::empty());
        }
        while i < self.photos.len()
            invariant
                0 <= i <= self.photos@.len(),
                n <= i,
                n == self.photos@.subrange(0, i as int).filter(
                    |p: PhotoRecord| p.is_deleted,
                ).len(),
            decreases self.photos@.len() - i,
        {
            proof {
                reveal(Seq::filter);
                let pre = self.photos@.subrange(0, i as int);
                let post = self.photos@.subrange(0, i + 1 as int);
                assert(post.drop_last() =~= pre);
                assert(post.last() == self.photos@[i as int]);
            }
            if self.photos[i].is_deleted {
                n = n + 1;
            }
            i = i + 1;
        }
        proof {
            assert(self.photos@.subrange(0, self.photos@.len() as int) =~= self.photos@);
        }
        n
    }
}

/// One album row's observable fields.
pub open spec fn album_view(a: AlbumRow) -> (i64, Seq<char>, Seq<char>) {
    (a.id, a.name@, a.created_at@)
}

/// Whether an album-photo association exists, whatever its position.
pub open spec fn has_assoc(aps: Seq<AlbumPhotoRow>, album_id: i64, photo_id: i64) -> bool {
    exists|i: int|
        0 <= i < aps.len() && (#[trigger] aps[i]).album_id == album_id && aps[i].photo_id
            == photo_id
}

/// The greatest position used in an album, or zero when it is empty.
pub open spec fn max_pos_spec(aps: Seq<AlbumPhotoRow>, album_id: i64) -> int
    decreases aps.len(),
{
    if aps.len() == 0 {
        0
    } else {
        let m = max_pos_spec(aps.drop_last(), album_id);
        if aps.last().album_id == album_id && aps.last().position > m {
            aps.last().position as int
        } else {
            m
        }
    }
}

pub proof fn lemma_max_pos_spec(aps: Seq<AlbumPhotoRow>, album_id: i64)
    ensures
        max_pos_spec(aps, album_id) >= 0,
        forall|i: int|
            0 <= i < aps.len() && (#[trigger] aps[i]).album_id == album_id ==> aps[i].position
                <= max_pos_spec(aps, album_id),
    decreases aps.len(),
{
    if aps.len() > 0 {
        lemma_max_pos_spec(aps.drop_last(), album_id);
        assert forall|i: int|
            0 <= i < aps.len() && (#[trigger] aps[i]).album_id == album_id implies aps[i].position
            <= max_pos_spec(aps, album_id) by {
            if i < aps.len() - 1 {
                assert(aps.drop_last()[i] == aps[i]);
            }
        }
    }
}

/// What appending the given photos to an album leaves: each id in order
/// gets the next position; ids already in the album are skipped (their
/// position slot is consumed anyway, matching the append rule).
pub open spec fn add_album_pairs_spec(
    aps: Seq<AlbumPhotoRow>,
    ids: Seq<i64>,
    album_id: i64,
    base: int,
) -> Seq<AlbumPhotoRow>
    decreases ids.len(),
{
    if ids.len() == 0 {
        aps
    } else {
        let prev = add_album_pairs_spec(aps, ids.drop_last(), album_id, base);
        if has_assoc(prev, album_id, ids.last()) {
            prev
        } else {
            prev.push(
                AlbumPhotoRow {
                    album_id,
                    photo_id: ids.last(),
                    position: (base + ids.len()) as i64,
                },
            )
        }
    }
}

/// The association of an album with the least position among those whose
/// photo still exists: the album's cover.
pub open spec fn min_assoc_spec(
    aps: Seq<AlbumPhotoRow>,
    album_id: i64,
    photos: Seq<PhotoRecord>,
) -> Option<AlbumPhotoRow>
    decreases aps.len(),
{
    if aps.len() == 0 {
        Option::None
    } else {
        let prev = min_assoc_spec(aps.drop_last(), album_id, photos);
        let t = aps.last();
        if t.album_id == album_id && photo_index_by_id(photos, t.photo_id) >= 0 && (match prev {
            Option::Some(b) => t.position < b.position,
            Option::None => true,
        }) {
            Option::Some(t)
        } else {
            prev
        }
    }
}

pub proof fn lemma_min_assoc_spec(
    aps: Seq<AlbumPhotoRow>,
    album_id: i64,
    photos: Seq<PhotoRecord>,
)
    ensures
        min_assoc_spec(aps, album_id, photos) matches Some(t) ==> t.album_id == album_id
            && photo_index_by_id(photos, t.photo_id) >= 0,
    decreases aps.len(),
{
    if aps.len() > 0 {
        lemma_min_assoc_spec(aps.drop_last(), album_id, photos);
    }
}

/// The cover path of an album: the path of its least-position photo.
pub open spec fn cover_path_spec(
    aps: Seq<AlbumPhotoRow>,
    album_id: i64,
    photos: Seq<PhotoRecord>,
) -> Option<Seq<char>> {
    match min_assoc_spec(aps, album_id, photos) {
        Option::Some(t) => Option::Some(
            photos[photo_index_by_id(photos, t.photo_id)].path@,
        ),
        Option::None => Option::None,
    }
}

/// How one listed album corresponds to its row.
pub open spec fn album_record_matches(
    info: AlbumRecord,
    row: AlbumRow,
    aps: Seq<AlbumPhotoRow>,
    photos: Seq<PhotoRecord>,
) -> bool {
    &&& info.id == row.id
    &&& info.name@ == row.name@
    &&& info.created_at@ == row.created_at@
    &&& info.photo_count == aps.filter(|t: AlbumPhotoRow| t.album_id == row.id).len()
    &&& opt_view(info.cover_path) == cover_path_spec(aps, row.id, photos)
}

impl Catalog {
    /// Whether an album holds a photo.
    pub fn has_album_photo(&self, album_id: i64, photo_id: i64) -> (r: bool)
        ensures
            r == has_assoc(self.album_photos@, album_id, photo_id),
    {
        let mut i: usize = 0;
        while i < self.album_photos.len()
            invariant
                0 <= i <= self.album_photos@.len(),
                forall|j: int|
                    0 <= j < i ==> !((#[trigger] self.album_photos@[j]).album_id == album_id
                        && self.album_photos@[j].photo_id == photo_id),
            decreases self.album_photos@.len() - i,
        {
            if self.album_photos[i].album_id == album_id && self.album_photos[i].photo_id
                == photo_id {
                return true;
            }
            i = i + 1;
        }
        false
    }

    /// Creates an album under a fresh id, stamped with `now`.
    pub fn create_album(&mut self, name: &str, now: &str) -> (r: AlbumRecord)
        requires
            old(self).wf(),
            old(self).next_album_id < i64::MAX,
        ensures
            final(self).wf(),
            final(self).libraries@ == old(self).libraries@,
            final(self).photos@ == old(self).photos@,
            final(self).tags@ == old(self).tags@,
            final(self).photo_tags@ == old(self).photo_tags@,
            final(self).album_photos@ == old(self).album_photos@,
            r.id == old(self).next_album_id,
            r.name@ == name@,
            r.created_at@ == now@,
            r.photo_count == 0,
            r.cover_path is None,
            final(self).next_album_id == old(self).next_album_id + 1,
            final(self).albums@.len() == old(self).albums@.len() + 1,
            exists|x: AlbumRow|
                #![trigger album_view(x)]
                final(self).albums@ == crate::order::ins_spec(old(self).albums@, x) && album_view(
                    x,
                ) == (r.id, r.name@, r.created_at@),
    {
        let id = self.next_album_id;
        let ghost orig = self.albums@;
        let row = AlbumRow { id, name: name.to_owned(), created_at: now.to_owned() };
        let ghost rowg = row;
        proof {
            crate::order::lemma_ins_spec_ensures(self.albums@, row);
        }
        crate::order::sorted_insert(&mut self.albums, row);
        self.next_album_id = id + 1;
        proof {
            let ts = self.albums@;
            let prop = |a: AlbumRow, b: AlbumRow| a.id != b.id;
            assert forall|m: int| 0 <= m < orig.len() implies #[trigger] prop(orig[m], rowg)
                && prop(rowg, orig[m]) by {
                assert(0 < orig[m].id < old(self).next_album_id);
            }
            assert forall|a: int, b: int| 0 <= a < b < orig.len() implies #[trigger] prop(
                orig[a],
                orig[b],
            ) by {
                assert(orig[a].id != orig[b].id);
            }
            crate::order::lemma_ins_pairwise(orig, rowg, prop);
            assert forall|a: int, b: int| 0 <= a < b < ts.len() implies (#[trigger] ts[a]).id
                != (#[trigger] ts[b]).id by {
                assert(prop(ts[a], ts[b]));
            }
            assert forall|a: int| 0 <= a < ts.len() implies 0 < (#[trigger] ts[a]).id
                < self.next_album_id by {
                if ts[a] != rowg {
                    assert(orig.contains(ts[a]));
                    let j = choose|j: int| 0 <= j < orig.len() && orig[j] == ts[a];
                    assert(0 < orig[j].id < old(self).next_album_id);
                }
            }
            assert(album_view(rowg) == (id, name@, now@));
        }
        AlbumRecord {
            id,
            name: name.to_owned(),
            created_at: now.to_owned(),
            photo_count: 0,
            cover_path: None,
        }
    }

    /// Creates an album stamped with the current wall-clock time: the
    /// convenience form of `create_album` for interactive callers. The
    /// timestamp comes from the clock, so only its presence is promised.
    pub fn create_album_now(&mut self, name: &str) -> (r: AlbumRecord)
        requires
            old(self).wf(),
            old(self).next_album_id < i64::MAX,
        ensures
            final(self).wf(),
            final(self).libraries@ == old(self).libraries@,
            final(self).photos@ == old(self).photos@,
            final(self).tags@ == old(self).tags@,
            final(self).photo_tags@ == old(self).photo_tags@,
            final(self).album_photos@ == old(self).album_photos@,
            r.id == old(self).next_album_id,
            r.name@ == name@,
            r.photo_count == 0,
            r.cover_path is None,
            final(self).next_album_id == old(self).next_album_id + 1,
            final(self).albums@.len() == old(self).albums@.len() + 1,
            exists|x: AlbumRow|
                #![trigger album_view(x)]
                final(self).albums@ == crate::order::ins_spec(old(self).albums@, x) && album_view(
                    x,
                ) == (r.id, r.name@, r.created_at@),
    {
        let now = crate::timefmt::now_utc_iso();
        self.create_album(name, now.as_str())
    }

    /// Removes an album and its photo associations; the photos themselves
    /// stay.
    pub fn delete_album(&mut self, album_id: i64)
        requires
            old(self).wf(),
        ensures
            final(self).wf(),
            final(self).libraries@ == old(self).libraries@,
            final(self).photos@ == old(self).photos@,
            final(self).tags@ == old(self).tags@,
            final(self).photo_tags@ == old(self).photo_tags@,
            final(self).albums@ == old(self).albums@.filter(|a: AlbumRow| a.id != album_id),
            final(self).album_photos@ == old(self).album_photos@.filter(
                |t: AlbumPhotoRow| t.album_id != album_id,
            ),
    {
        crate::order::retain_where(
            &mut self.albums,
            (|a: &AlbumRow| -> (keep: bool)
                ensures
                    keep == (a.id != album_id),
                { a.id != album_id }),
            Ghost(|a: AlbumRow| a.id != album_id),
        );
        crate::order::retain_where(
            &mut self.album_photos,
            (|t: &AlbumPhotoRow| -> (keep: bool)
                ensures
                    keep == (t.album_id != album_id),
                { t.album_id != album_id }),
            Ghost(|t: AlbumPhotoRow| t.album_id != album_id),
        );
        proof {
            let prop = |a: AlbumRow, b: AlbumRow| a.id != b.id && a.le_spec(&b);
            assert forall|a: int, b: int| 0 <= a < b < old(self).albums@.len() implies #[trigger]
            prop(old(self).albums@[a], old(self).albums@[b]) by {
                assert(crate::order::le_rel::<AlbumRow>()(
                    old(self).albums@[a],
                    old(self).albums@[b],
                ));
            }
            crate::order::lemma_filter_pairwise(
                old(self).albums@,
                |a: AlbumRow| a.id != album_id,
                prop,
            );
            let f = old(self).albums@.filter(|a: AlbumRow| a.id != album_id);
            assert forall|a: int, b: int| 0 <= a < b < f.len() implies (#[trigger] f[a]).id
                != (#[trigger] f[b]).id && crate::order::le_rel::<AlbumRow>()(f[a], f[b]) by {
                assert(prop(f[a], f[b]));
            }
            assert forall|a: int| 0 <= a < f.len() implies 0 < (#[trigger] f[a]).id
                < old(self).next_album_id by {
                assert(old(self).albums@.contains(f[a]));
                let j = choose|j: int|
                    0 <= j < old(self).albums@.len() && old(self).albums@[j] == f[a];
                assert(0 < old(self).albums@[j].id < old(self).next_album_id);
            }
            let prop2 = |a: AlbumPhotoRow, b: AlbumPhotoRow|
                !(a.album_id == b.album_id && a.photo_id == b.photo_id) && !(a.album_id
                    == b.album_id && a.position == b.position);
            crate::order::lemma_filter_pairwise(
                old(self).album_photos@,
                |t: AlbumPhotoRow| t.album_id != album_id,
                prop2,
            );
            let fa = old(self).album_photos@.filter(|t: AlbumPhotoRow| t.album_id != album_id);
            assert forall|a: int, b: int| 0 <= a < b < fa.len() implies !((#[trigger] fa[a]).album_id
                == (#[trigger] fa[b]).album_id && fa[a].photo_id == fa[b].photo_id) && !(
            fa[a].album_id == fa[b].album_id && fa[a].position == fa[b].position) by {
                assert(prop2(fa[a], fa[b]));
            }
        }
    }

    /// Renames an album; an unknown id is a no-op.
    pub fn rename_album(&mut self, album_id: i64, new_name: &str)
        requires
            old(self).wf(),
        ensures
            final(self).wf(),
            final(self).libraries@ == old(self).libraries@,
            final(self).photos@ == old(self).photos@,
            final(self).tags@ == old(self).tags@,
            final(self).photo_tags@ == old(self).photo_tags@,
            final(self).album_photos@ == old(self).album_photos@,
            final(self).albums@.len() == old(self).albums@.len(),
            forall|i: int|
                0 <= i < old(self).albums@.len() ==> {
                    let o = #[trigger] old(self).albums@[i];
                    if o.id == album_id {
                        final(self).albums@[i].id == o.id && final(self).albums@[i].name@
                            == new_name@ && final(self).albums@[i].created_at@ == o.created_at@
                    } else {
                        final(self).albums@[i] == o
                    }
                },
    {
        let ghost orig = self.albums@;
        let mut i: usize = 0;
        while i < self.albums.len()
            invariant
                0 <= i <= self.albums@.len(),
                old(self).wf(),
                orig == old(self).albums@,
                self.libraries@ == old(self).libraries@,
                self.photos@ == old(self).photos@,
                self.tags@ == old(self).tags@,
                self.photo_tags@ == old(self).photo_tags@,
                self.album_photos@ == old(self).album_photos@,
                self.next_library_id == old(self).next_library_id,
                self.next_photo_id == old(self).next_photo_id,
                self.next_tag_id == old(self).next_tag_id,
                self.next_album_id == old(self).next_album_id,
                self.albums@.len() == orig.len(),
                forall|j: int|
                    0 <= j < i ==> {
                        let o = #[trigger] orig[j];
                        if o.id == album_id {
                            self.albums@[j].id == o.id && self.albums@[j].name@ == new_name@
                                && self.albums@[j].created_at@ == o.created_at@
                        } else {
                            self.albums@[j] == o
                        }
                    },
                forall|j: int| i <= j < orig.len() ==> #[trigger] self.albums@[j] == orig[j],
            decreases self.albums@.len() - i,
        {
            if self.albums[i].id == album_id {
                let ghost pre = self.albums@;
                let row = self.albums.remove(i);
                let replacement = AlbumRow { name: new_name.to_owned(), ..row };
                self.albums.insert(i, replacement);
                proof {
                    assert(self.albums@ =~= pre.update(i as int, self.albums@[i as int]));
                }
            }
            i = i + 1;
        }
        proof {
            assert forall|a: int, b: int| 0 <= a < b < self.albums@.len() implies (#[trigger] self
                .albums@[a]).id != (#[trigger] self.albums@[b]).id && crate::order::le_rel::<
                AlbumRow,
            >()(self.albums@[a], self.albums@[b]) by {
                assert(self.albums@[a].id == orig[a].id && self.albums@[a].created_at@
                    == orig[a].created_at@);
                assert(self.albums@[b].id == orig[b].id && self.albums@[b].created_at@
                    == orig[b].created_at@);
                assert(orig[a].id != orig[b].id);
                assert(crate::order::le_rel::<AlbumRow>()(orig[a], orig[b]));
            }
            assert forall|a: int| 0 <= a < self.albums@.len() implies 0 < (#[trigger] self
                .albums@[a]).id < self.next_album_id by {
                assert(self.albums@[a].id == orig[a].id);
                assert(0 < orig[a].id < old(self).next_album_id);
            }
        }
    }

    /// Appends photos to an album: each id in the given order receives the
    /// next display position after the album's current maximum; ids already
    /// in the album are left alone (no duplicate associations, no position
    /// collisions).
    pub fn add_photos_to_album(&mut self, album_id: i64, photo_ids: &Vec<i64>)
        requires
            old(self).wf(),
            max_pos_spec(old(self).album_photos@, album_id) + photo_ids@.len() < i64::MAX,
        ensures
            final(self).wf(),
            final(self).libraries@ == old(self).libraries@,
            final(self).photos@ == old(self).photos@,
            final(self).tags@ == old(self).tags@,
            final(self).photo_tags@ == old(self).photo_tags@,
            final(self).albums@ == old(self).albums@,
            final(self).album_photos@ == add_album_pairs_spec(
                old(self).album_photos@,
                photo_ids@,
                album_id,
                max_pos_spec(old(self).album_photos@, album_id),
            ),
    {
        let ghost orig = self.album_photos@;
        // The current greatest position in the album.
        let mut max_pos: i64 = 0;
        let mut i: usize = 0;
        proof {
            assert(self.album_photos@.subrange(0, 0) =~= Seq::<AlbumPhotoRow>::empty());
        }
        while i < self.album_photos.len()
            invariant
                0 <= i <= self.album_photos@.len(),
                max_pos == max_pos_spec(self.album_photos@.subrange(0, i as int), album_id),
                max_pos >= 0,
            decreases self.album_photos@.len() - i,
        {
            proof {
                let pre = self.album_photos@.subrange(0, i as int);
                let post = self.album_photos@.subrange(0, i + 1 as int);
                assert(post.drop_last() =~= pre);
                assert(post.last() == self.album_photos@[i as int]);
            }
            if self.album_photos[i].album_id == album_id && self.album_photos[i].position
                > max_pos {
                max_pos = self.album_photos[i].position;
            }
            i = i + 1;
        }
        proof {
            assert(self.album_photos@.subrange(0, self.album_photos@.len() as int)
                =~= self.album_photos@);
            lemma_max_pos_spec(orig, album_id);
        }
        let mut k: usize = 0;
        proof {
            assert(photo_ids@.subrange(0, 0) =~= Seq::<i64>::empty());
        }
        while k < photo_ids.len()
            invariant
                0 <= k <= photo_ids@.len(),
                old(self).wf(),
                orig == old(self).album_photos@,
                max_pos == max_pos_spec(orig, album_id),
                max_pos >= 0,
                max_pos + photo_ids@.len() < i64::MAX,
                self.libraries@ == old(self).libraries@,
                self.photos@ == old(self).photos@,
                self.tags@ == old(self).tags@,
                self.photo_tags@ == old(self).photo_tags@,
                self.albums@ == old(self).albums@,
                self.next_library_id == old(self).next_library_id,
                self.next_photo_id == old(self).next_photo_id,
                self.next_tag_id == old(self).next_tag_id,
                self.next_album_id == old(self).next_album_id,
                self.album_photos@ == add_album_pairs_spec(
                    orig,
                    photo_ids@.subrange(0, k as int),
                    album_id,
                    max_pos as int,
                ),
                forall|i2: int, j2: int|
                    0 <= i2 < j2 < self.album_photos@.len() ==> !((#[trigger] self
                        .album_photos@[i2]).album_id == (#[trigger] self.album_photos@[j2]).album_id
                        && self.album_photos@[i2].photo_id == self.album_photos@[j2].photo_id) && !(
                    self.album_photos@[i2].album_id == self.album_photos@[j2].album_id && self
                        .album_photos@[i2].position == self.album_photos@[j2].position),
                forall|i2: int|
                    0 <= i2 < self.album_photos@.len() && (#[trigger] self
                        .album_photos@[i2]).album_id == album_id ==> self.album_photos@[i2].position
                        <= max_pos + k,
            decreases photo_ids@.len() - k,
        {
            let ghost pre = photo_ids@.subrange(0, k as int);
            let ghost post = photo_ids@.subrange(0, k + 1 as int);
            proof {
                assert(post.drop_last() =~= pre);
                assert(post.last() == photo_ids@[k as int]);
            }
            let pid = photo_ids[k];
            if !self.has_album_photo(album_id, pid) {
                let ghost cur_pre = self.album_photos@;
                let pos: i64 = max_pos + 1 + (k as i64);
                self.album_photos.push(AlbumPhotoRow { album_id, photo_id: pid, position: pos });
                proof {
                    assert forall|i2: int, j2: int|
                        0 <= i2 < j2 < self.album_photos@.len() implies !((#[trigger] self
                        .album_photos@[i2]).album_id == (#[trigger] self.album_photos@[j2]).album_id
                        && self.album_photos@[i2].photo_id == self.album_photos@[j2].photo_id) && !(
                    self.album_photos@[i2].album_id == self.album_photos@[j2].album_id && self
                        .album_photos@[i2].position == self.album_photos@[j2].position) by {
                        if j2 == self.album_photos@.len() - 1 {
                            assert(self.album_photos@[i2] == cur_pre[i2]);
                            if cur_pre[i2].album_id == album_id {
                                assert(cur_pre[i2].position <= max_pos + k);
                            }
                        }
                    }
                }
            }
            k = k + 1;
        }
        proof {
            assert(photo_ids@.subrange(0, photo_ids@.len() as int) =~= photo_ids@);
        }
    }

    /// Removes photos from an album; absent associations are ignored.
    pub fn remove_photos_from_album(&mut self, album_id: i64, photo_ids: &Vec<i64>)
        requires
            old(self).wf(),
        ensures
            final(self).wf(),
            final(self).libraries@ == old(self).libraries@,
            final(self).photos@ == old(self).photos@,
            final(self).tags@ == old(self).tags@,
            final(self).photo_tags@ == old(self).photo_tags@,
            final(self).albums@ == old(self).albums@,
            final(self).album_photos@ == old(self).album_photos@.filter(
                |t: AlbumPhotoRow| !(t.album_id == album_id && photo_ids@.contains(t.photo_id)),
            ),
    {
        let ids_ref = &photo_ids;
        crate::order::retain_where(
            &mut self.album_photos,
            (|t: &AlbumPhotoRow| -> (keep: bool)
                ensures
                    keep == !(t.album_id == album_id && photo_ids@.contains(t.photo_id)),
                {
                    if t.album_id == album_id {
                        !contains_id(ids_ref, t.photo_id)
                    } else {
                        true
                    }
                }),
            Ghost(
                |t: AlbumPhotoRow| !(t.album_id == album_id && photo_ids@.contains(t.photo_id)),
            ),
        );
        proof {
            let prop2 = |a: AlbumPhotoRow, b: AlbumPhotoRow|
                !(a.album_id == b.album_id && a.photo_id == b.photo_id) && !(a.album_id
                    == b.album_id && a.position == b.position);
            crate::order::lemma_filter_pairwise(
                old(self).album_photos@,
                |t: AlbumPhotoRow| !(t.album_id == album_id && photo_ids@.contains(t.photo_id)),
                prop2,
            );
            let fa = old(self).album_photos@.filter(
                |t: AlbumPhotoRow| !(t.album_id == album_id && photo_ids@.contains(t.photo_id)),
            );
            assert forall|a: int, b: int| 0 <= a < b < fa.len() implies !((#[trigger] fa[a]).album_id
                == (#[trigger] fa[b]).album_id && fa[a].photo_id == fa[b].photo_id) && !(
            fa[a].album_id == fa[b].album_id && fa[a].position == fa[b].position) by {
                assert(prop2(fa[a], fa[b]));
            }
        }
    }

    /// Lists every album, newest first, with its photo count and cover.
    pub fn get_albums(&self) -> (r: Vec<AlbumRecord>)
        ensures
            r@.len() == self.albums@.len(),
            forall|k: int|
                0 <= k < r@.len() ==> album_record_matches(
                    #[trigger] r@[k],
                    self.albums@[k],
                    self.album_photos@,
                    self.photos@,
                ),
    {
        let mut out: Vec<AlbumRecord> = Vec::new();
        let mut k: usize = 0;
        while k < self.albums.len()
            invariant
                0 <= k <= self.albums@.len(),
                out@.len() == k,
                forall|m: int|
                    0 <= m < k ==> album_record_matches(
                        #[trigger] out@[m],
                        self.albums@[m],
                        self.album_photos@,
                        self.photos@,
                    ),
            decreases self.albums@.len() - k,
        {
            let row = &self.albums[k];
            let album_id = row.id;
            // Count the album's associations.
            let mut n: u64 = 0;
            let mut i: usize = 0;
            proof {
                reveal(Seq::filter);
                assert(self.album_photos@.subrange(0, 0).filter(
                    |t: AlbumPhotoRow| t.album_id == album_id,
                ) =~= Seq::<AlbumPhotoRow>::empty());
            }
            while i < self.album_photos.len()
                invariant
                    0 <= i <= self.album_photos@.len(),
                    n <= i,
                    n == self.album_photos@.subrange(0, i as int).filter(
                        |t: AlbumPhotoRow| t.album_id == album_id,
                    ).len(),
                decreases self.album_photos@.len() - i,
            {
                proof {
                    reveal(Seq::filter);
                    let pre = self.album_photos@.subrange(0, i as int);
                    let post = self.album_photos@.subrange(0, i + 1 as int);
                    assert(post.drop_last() =~= pre);
                    assert(post.last() == self.album_photos@[i as int]);
                }
                if self.album_photos[i].album_id == album_id {
                    n = n + 1;
                }
                i = i + 1;
            }
            proof {
                assert(self.album_photos@.subrange(0, self.album_photos@.len() as int)
                    =~= self.album_photos@);
            }
            // Find the cover: the least position whose photo still exists.
            let mut best: Option<AlbumPhotoRow> = None;
            let mut j: usize = 0;
            proof {
                assert(self.album_photos@.subrange(0, 0) =~= Seq::<AlbumPhotoRow>::empty());
            }
            while j < self.album_photos.len()
                invariant
                    0 <= j <= self.album_photos@.len(),
                    best == min_assoc_spec(
                        self.album_photos@.subrange(0, j as int),
                        album_id,
                        self.photos@,
                    ),
                decreases self.album_photos@.len() - j,
            {
                proof {
                    let pre = self.album_photos@.subrange(0, j as int);
                    let post = self.album_photos@.subrange(0, j + 1 as int);
                    assert(post.drop_last() =~= pre);
                    assert(post.last() == self.album_photos@[j as int]);
                }
                let t = self.album_photos[j];
                if t.album_id == album_id && self.find_photo_index(t.photo_id).is_some() {
                    proof {
                        lemma_photo_index_by_id(self.photos@, t.photo_id);
                    }
                    let replace = match &best {
                        Some(b) => t.position < b.position,
                        None => true,
                    };
                    if replace {
                        best = Some(t);
                    }
                }
                j = j + 1;
            }
            proof {
                assert(self.album_photos@.subrange(0, self.album_photos@.len() as int)
                    =~= self.album_photos@);
            }
            proof {
                lemma_min_assoc_spec(self.album_photos@, album_id, self.photos@);
            }
            let cover_path: Option<String> = match &best {
                Some(t) => {
                    match self.find_photo_index(t.photo_id) {
                        Some(pi) => {
                            proof {
                                lemma_photo_index_by_id(self.photos@, t.photo_id);
                            }
                            Some(self.photos[pi].path.clone())
                        },
                        None => None,
                    }
                },
                None => None,
            };
            proof {
                match min_assoc_spec(self.album_photos@, album_id, self.photos@) {
                    Option::Some(t) => {
                        lemma_photo_index_by_id(self.photos@, t.photo_id);
                    },
                    Option::None => {},
                }
            }
            out.push(
                AlbumRecord {
                    id: row.id,
                    name: row.name.clone(),
                    created_at: row.created_at.clone(),
                    photo_count: n,
                    cover_path,
                },
            );
            proof {
                let row2 = self.albums@[k as int];
                assert((|t: AlbumPhotoRow| t.album_id == album_id) =~= (|t: AlbumPhotoRow|
                    t.album_id == row2.id));
                assert(out@.last().id == row2.id);
                assert(out@.last().name@ == row2.name@);
                assert(out@.last().created_at@ == row2.created_at@);
                assert(out@.last().photo_count == self.album_photos@.filter(
                    |t: AlbumPhotoRow| t.album_id == row2.id,
                ).len());
                assert(opt_view(out@.last().cover_path) == cover_path_spec(
                    self.album_photos@,
                    row2.id,
                    self.photos@,
                ));
                assert(album_record_matches(
                    out@.last(),
                    self.albums@[k as int],
                    self.album_photos@,
                    self.photos@,
                ));
            }
            k = k + 1;
        }
        out
    }
}

/// A photo row paired with its display position in an album.
pub struct PositionedPhoto {
    pub position: i64,
    pub photo: PhotoRecord,
}

/// The view of a positioned row.
pub struct PositionedView {
    pub position: i64,
    pub photo: PhotoView,
}

impl SortOrd for PositionedView {
    /// Album listings are ordered by position.
    open spec fn le_spec(&self, other: &Self) -> bool {
        self.position <= other.position
    }

    proof fn lemma_le_total(a: &Self, b: &Self) {
    }

    proof fn lemma_le_trans(a: &Self, b: &Self, c: &Self) {
    }
}

impl SortOrd for PositionedPhoto {
    open spec fn le_spec(&self, other: &Self) -> bool {
        self.position <= other.position
    }

    proof fn lemma_le_total(a: &Self, b: &Self) {
    }

    proof fn lemma_le_trans(a: &Self, b: &Self, c: &Self) {
    }
}

impl SortOrdExec for PositionedPhoto {
    fn le(&self, other: &Self) -> (r: bool) {
        self.position <= other.position
    }
}

/// Whether an association row contributes to an album listing: it belongs
/// to the album and its photo still exists and is not deleted.
pub open spec fn album_row_listed(
    t: AlbumPhotoRow,
    album_id: i64,
    photos: Seq<PhotoRecord>,
) -> bool {
    &&& t.album_id == album_id
    &&& photo_index_by_id(photos, t.photo_id) >= 0
    &&& !photos[photo_index_by_id(photos, t.photo_id)].is_deleted
}

/// The positioned view an association row contributes.
pub open spec fn album_row_view(t: AlbumPhotoRow, photos: Seq<PhotoRecord>) -> PositionedView {
    PositionedView {
        position: t.position,
        photo: photos[photo_index_by_id(photos, t.photo_id)]@,
    }
}

impl Catalog {
    /// Lists an album's photos in display order (position ascending);
    /// soft-deleted photos and associations whose photo is gone are left
    /// out.
    pub fn get_album_photos(&self, album_id: i64) -> (r: Vec<PhotoRecord>)
        ensures
            ({
                let listed = self.album_photos@.filter(
                    |t: AlbumPhotoRow| album_row_listed(t, album_id, self.photos@),
                );
                let sorted = crate::order::sort_spec(
                    listed.map_values(|t: AlbumPhotoRow| album_row_view(t, self.photos@)),
                );
                photo_views(r@) == sorted.map_values(|w: PositionedView| w.photo)
            }),
    {
        let ghost pred = |t: AlbumPhotoRow| album_row_listed(t, album_id, self.photos@);
        let ghost mk = |t: AlbumPhotoRow| album_row_view(t, self.photos@);
        let ghost pvmap = |pp: PositionedPhoto| PositionedView {
            position: pp.position,
            photo: pp.photo@,
        };
        let mut matched: Vec<PositionedPhoto> = Vec::new();
        let mut i: usize = 0;
        proof {
            reveal(Seq::filter);
            assert(self.album_photos@.subrange(0, 0).filter(pred).map_values(mk) =~= Seq::<
                PositionedView,
            >::empty());
            assert(matched@.map_values(pvmap) =~= Seq::<PositionedView>::empty());
        }
        while i < self.album_photos.len()
            invariant
                0 <= i <= self.album_photos@.len(),
                pred == (|t: AlbumPhotoRow| album_row_listed(t, album_id, self.photos@)),
                mk == (|t: AlbumPhotoRow| album_row_view(t, self.photos@)),
                pvmap == (|pp: PositionedPhoto| PositionedView {
                    position: pp.position,
                    photo: pp.photo@,
                }),
                sorted_by(matched@, crate::order::le_rel::<PositionedPhoto>()),
                matched@.map_values(pvmap) == crate::order::sort_spec(
                    self.album_photos@.subrange(0, i as int).filter(pred).map_values(mk),
                ),
            decreases self.album_photos@.len() - i,
        {
            let ghost pre_take = self.album_photos@.subrange(0, i as int);
            let ghost post_take = self.album_photos@.subrange(0, i + 1 as int);
            proof {
                reveal(Seq::filter);
                assert(post_take.drop_last() =~= pre_take);
                assert(post_take.last() == self.album_photos@[i as int]);
            }
            let t = self.album_photos[i];
            let mut included = false;
            if t.album_id == album_id {
                match self.find_photo_index(t.photo_id) {
                    Some(pi) => {
                        proof {
                            lemma_photo_index_by_id(self.photos@, t.photo_id);
                        }
                        if !self.photos[pi].is_deleted {
                            included = true;
                            let ghost matched_pre = matched@;
                            let item = PositionedPhoto {
                                position: t.position,
                                photo: copy_photo(&self.photos[pi]),
                            };
                            proof {
                                assert(pvmap(item) == mk(self.album_photos@[i as int]));
                            }
                            crate::order::sorted_insert(&mut matched, item);
                            proof {
                                crate::order::lemma_ins_spec_map(matched_pre, item, pvmap);
                                let fp = pre_take.filter(pred).map_values(mk);
                                let v = mk(self.album_photos@[i as int]);
                                assert(post_take.filter(pred).map_values(mk) =~= fp.push(v));
                                assert(fp.push(v).drop_last() =~= fp);
                                assert(fp.push(v).last() == v);
                                assert(crate::order::sort_spec(fp.push(v))
                                    == crate::order::ins_spec(crate::order::sort_spec(fp), v));
                            }
                        }
                    },
                    None => {},
                }
            }
            if !included {
                proof {
                    assert(!pred(self.album_photos@[i as int]));
                    assert(post_take.filter(pred).map_values(mk) =~= pre_take.filter(
                        pred,
                    ).map_values(mk));
                }
            }
            i = i + 1;
        }
        proof {
            assert(self.album_photos@.subrange(0, self.album_photos@.len() as int)
                =~= self.album_photos@);
        }
        let mut out: Vec<PhotoRecord> = Vec::new();
        let mut k: usize = 0;
        proof {
            assert(photo_views(out@) =~= Seq::<PhotoView>::empty());
        }
        while k < matched.len()
            invariant
                0 <= k <= matched@.len(),
                pvmap == (|pp: PositionedPhoto| PositionedView {
                    position: pp.position,
                    photo: pp.photo@,
                }),
                photo_views(out@) == matched@.map_values(pvmap).subrange(0, k as int).map_values(
                    |w: PositionedView| w.photo,
                ),
            decreases matched@.len() - k,
        {
            let ghost out_pre = out@;
            out.push(copy_photo(&matched[k].photo));
            proof {
                let ws = matched@.map_values(pvmap);
                assert(photo_views(out@) =~= photo_views(out_pre).push(matched@[k as int].photo@));
                assert(ws.subrange(0, k + 1 as int) =~= ws.subrange(0, k as int).push(
                    ws[k as int],
                ));
                assert(ws.subrange(0, k + 1 as int).map_values(|w: PositionedView| w.photo)
                    =~= ws.subrange(0, k as int).map_values(|w: PositionedView| w.photo).push(
                    ws[k as int].photo,
                ));
            }
            k = k + 1;
        }
        proof {
            let sorted = crate::order::sort_spec(
                self.album_photos@.filter(pred).map_values(mk),
            );
            assert(matched@.map_values(pvmap) == sorted);
            assert(matched@.map_values(pvmap).subrange(0, matched@.len() as int) =~= sorted);
        }
        out
    }
}

/// The capture year of a row: read from the stored capture time only (the
/// facet views ignore rows without one).
pub open spec fn year_of_photo(p: PhotoRecord) -> Option<int> {
    match p.taken_at {
        Option::Some(t) => ts_year(t@),
        Option::None => Option::None,
    }
}

/// The capture month of a row.
pub open spec fn month_of_photo(p: PhotoRecord) -> Option<int> {
    match p.taken_at {
        Option::Some(t) => ts_month(t@),
        Option::None => Option::None,
    }
}

impl Catalog {
    fn year_of_photo_exec(p: &PhotoRecord) -> (r: Option<i32>)
        ensures
            match r {
                Option::Some(y) => year_of_photo(*p) == Option::Some(y as int),
                Option::None => year_of_photo(*p) is None,
            },
    {
        match &p.taken_at {
            Some(t) => ts_year_of(t.as_str()),
            None => None,
        }
    }

    fn month_of_photo_exec(p: &PhotoRecord) -> (r: Option<i32>)
        ensures
            match r {
                Option::Some(m) => month_of_photo(*p) == Option::Some(m as int),
                Option::None => month_of_photo(*p) is None,
            },
    {
        match &p.taken_at {
            Some(t) => ts_month_of(t.as_str()),
            None => None,
        }
    }

    fn count_lib_year(&self, library_id: i64, y: i32) -> (n: u64)
        ensures
            n == self.photos@.filter(
                |p: PhotoRecord| p.library_id == library_id && year_of_photo(p) == Option::Some(
                    y as int,
                ),
            ).len(),
    {
        let ghost pred = |p: PhotoRecord| p.library_id == library_id && year_of_photo(p)
            == Option::Some(y as int);
        let mut n: u64 = 0;
        let mut i: usize = 0;
        proof {
            reveal(Seq::filter);
            assert(self.photos@.subrange(0, 0).filter(pred) =~= Seq::<PhotoRecord>::empty());
        }
        while i < self.photos.len()
            invariant
                0 <= i <= self.photos@.len(),
                n <= i,
                pred == (|p: PhotoRecord| p.library_id == library_id && year_of_photo(p)
                    == Option::Some(y as int)),
                n == self.photos@.subrange(0, i as int).filter(pred).len(),
            decreases self.photos@.len() - i,
        {
            proof {
                reveal(Seq::filter);
                let pre = self.photos@.subrange(0, i as int);
                let post = self.photos@.subrange(0, i + 1 as int);
                assert(post.drop_last() =~= pre);
                assert(post.last() == self.photos@[i as int]);
            }
            let hit = self.photos[i].library_id == library_id && (match Self::year_of_photo_exec(
                &self.photos[i],
            ) {
                Some(got) => got == y,
                None => false,
            });
            if hit {
                n = n + 1;
            }
            i = i + 1;
        }
        proof {
            assert(self.photos@.subrange(0, self.photos@.len() as int) =~= self.photos@);
        }
        n
    }

    /// The distinct capture years of one library's photos, newest first,
    /// each with the number of photos captured that year. Rows without a
    /// capture time do not contribute.
    pub fn get_years(&self, library_id: i64) -> (r: Vec<CategoryYear>)
        ensures
            forall|a: int, b: int|
                0 <= a < b < r@.len() ==> (#[trigger] r@[a]).year > (#[trigger] r@[b]).year,
            forall|k: int|
                0 <= k < r@.len() ==> (#[trigger] r@[k]).count == self.photos@.filter(
                    |p: PhotoRecord| p.library_id == library_id && year_of_photo(p)
                        == Option::Some(r@[k].year as int),
                ).len(),
            forall|j: int|
                0 <= j < self.photos@.len() && (#[trigger] self.photos@[j]).library_id
                    == library_id && year_of_photo(self.photos@[j]) is Some ==> exists|k: int|
                    0 <= k < r@.len() && (#[trigger] r@[k]).year as int == year_of_photo(
                        self.photos@[j],
                    )->Some_0,
    {
        // First pass: the distinct years, kept strictly descending.
        let mut keys: Vec<i32> = Vec::new();
        let mut i: usize = 0;
        while i < self.photos.len()
            invariant
                0 <= i <= self.photos@.len(),
                forall|a: int, b: int|
                    0 <= a < b < keys@.len() ==> (#[trigger] keys@[a]) > (#[trigger] keys@[b]),
                forall|v: i32| #[trigger]
                    keys@.contains(v) <==> (exists|j: int|
                        0 <= j < i && (#[trigger] self.photos@[j]).library_id == library_id
                            && year_of_photo(self.photos@[j]) == Option::Some(v as int)),
            decreases self.photos@.len() - i,
        {
            let p = &self.photos[i];
            let ghost keys_pre = keys@;
            let mut added: Option<i32> = None;
            if p.library_id == library_id {
                match Self::year_of_photo_exec(p) {
                    Some(y) => {
                        insert_desc_key(&mut keys, y);
                        added = Some(y);
                    },
                    None => {},
                }
            }
            proof {
                assert forall|v: i32| #[trigger] keys@.contains(v) implies (exists|j: int|
                    0 <= j < i + 1 && (#[trigger] self.photos@[j]).library_id == library_id
                        && year_of_photo(self.photos@[j]) == Option::Some(v as int)) by {
                    if added matches Some(y) && v == y {
                        assert(self.photos@[i as int].library_id == library_id && year_of_photo(
                            self.photos@[i as int],
                        ) == Option::Some(v as int));
                    } else {
                        assert(keys_pre.contains(v));
                        let j = choose|j: int|
                            0 <= j < i && (#[trigger] self.photos@[j]).library_id == library_id
                                && year_of_photo(self.photos@[j]) == Option::Some(v as int);
                        assert(0 <= j < i + 1 && self.photos@[j].library_id == library_id
                            && year_of_photo(self.photos@[j]) == Option::Some(v as int));
                    }
                }
                assert forall|v: i32| (exists|j: int|
                    0 <= j < i + 1 && (#[trigger] self.photos@[j]).library_id == library_id
                        && year_of_photo(self.photos@[j]) == Option::Some(v as int)) implies
                #[trigger] keys@.contains(v) by {
                    let j = choose|j: int|
                        0 <= j < i + 1 && (#[trigger] self.photos@[j]).library_id == library_id
                            && year_of_photo(self.photos@[j]) == Option::Some(v as int);
                    if j < i {
                        assert(keys_pre.contains(v));
                    } else {
                        assert(added == Some(v));
                    }
                }
            }
            i = i + 1;
        }
        // Second pass: one count per year.
        let mut out: Vec<CategoryYear> = Vec::new();
        let mut k: usize = 0;
        while k < keys.len()
            invariant
                0 <= k <= keys@.len(),
                out@.len() == k,
                forall|a: int, b: int|
                    0 <= a < b < keys@.len() ==> (#[trigger] keys@[a]) > (#[trigger] keys@[b]),
                forall|m: int| 0 <= m < k ==> (#[trigger] out@[m]).year == keys@[m],
                forall|m: int|
                    0 <= m < k ==> (#[trigger] out@[m]).count == self.photos@.filter(
                        |p: PhotoRecord| p.library_id == library_id && year_of_photo(p)
                            == Option::Some(out@[m].year as int),
                    ).len(),
            decreases keys@.len() - k,
        {
            let y = keys[k];
            let n = self.count_lib_year(library_id, y);
            out.push(CategoryYear { year: y, count: n });
            proof {
                assert((|p: PhotoRecord| p.library_id == library_id && year_of_photo(p)
                    == Option::Some(y as int)) =~= (|p: PhotoRecord| p.library_id == library_id
                    && year_of_photo(p) == Option::Some(out@.last().year as int)));
            }
            k = k + 1;
        }
        proof {
            assert forall|j: int|
                0 <= j < self.photos@.len() && (#[trigger] self.photos@[j]).library_id
                    == library_id && year_of_photo(self.photos@[j]) is Some implies exists|k2: int|
                0 <= k2 < out@.len() && (#[trigger] out@[k2]).year as int == year_of_photo(
                    self.photos@[j],
                )->Some_0 by {
                let v = year_of_photo(self.photos@[j])->Some_0;
                assert(keys@.contains((v as i32))) by {
                    assert(year_of_photo(self.photos@[j]) == Option::Some(((v as i32)) as int));
                }
                let k2 = choose|k2: int| 0 <= k2 < keys@.len() && keys@[k2] == ((v as i32));
                assert(out@[k2].year == keys@[k2]);
            }
        }
        out
    }
}

/// Inserts a key into a strictly descending list, keeping it strictly
/// descending; a key already present is left alone.
fn insert_desc_key(keys: &mut Vec<i32>, y: i32)
    requires
        forall|a: int, b: int|
            0 <= a < b < old(keys)@.len() ==> (#[trigger] old(keys)@[a])
                > (#[trigger] old(keys)@[b]),
    ensures
        forall|a: int, b: int|
            0 <= a < b < final(keys)@.len() ==> (#[trigger] final(keys)@[a])
                > (#[trigger] final(keys)@[b]),
        forall|v: i32| #[trigger]
            final(keys)@.contains(v) <==> (old(keys)@.contains(v) || v == y),
{
    let ghost orig = keys@;
    let mut pos: usize = 0;
    while pos < keys.len() && keys[pos] > y
        invariant
            0 <= pos <= keys@.len(),
            keys@ == orig,
            forall|m: int| 0 <= m < pos ==> (#[trigger] orig[m]) > y,
        decreases keys@.len() - pos,
    {
        pos = pos + 1;
    }
    if pos < keys.len() && keys[pos] == y {
        proof {
            assert(orig[pos as int] == y);
            assert forall|v: i32| #[trigger] keys@.contains(v) implies (orig.contains(v) || v
                == y) by {}
            assert(orig.contains(y)) by {
                assert(orig[pos as int] == y);
            }
        }
        return ;
    }
    keys.insert(pos, y);
    proof {
        assert forall|a: int, b: int| 0 <= a < b < keys@.len() implies (#[trigger] keys@[a]) > (
        #[trigger] keys@[b]) by {
            let av: i32 = if a < pos {
                orig[a]
            } else if a == pos {
                y
            } else {
                orig[a - 1]
            };
            let bv: i32 = if b < pos {
                orig[b]
            } else if b == pos {
                y
            } else {
                orig[b - 1]
            };
            assert(keys@[a] == av && keys@[b] == bv);
            if b == pos {
                assert(orig[a] > y);
            } else if a == pos {
                assert(!(orig[b - 1] > y) && orig[b - 1] != y);
            } else if a < pos && b > pos {
                if pos < orig.len() {
                    assert(!(orig[pos as int] > y));
                    assert(orig[a] > y);
                    if b - 1 > pos {
                        assert(orig[pos as int] > orig[b - 1]);
                    }
                } else {
                    assert(false);
                }
            }
        }
        assert forall|v: i32| #[trigger] keys@.contains(v) implies (orig.contains(v) || v
            == y) by {
            let m = choose|m: int| 0 <= m < keys@.len() && keys@[m] == v;
            if m < pos {
                assert(orig[m] == v);
            } else if m > pos {
                assert(orig[m - 1] == v);
            }
        }
        assert forall|v: i32| (orig.contains(v) || v == y) implies #[trigger] keys@.contains(
            v,
        ) by {
            if v == y {
                assert(keys@[pos as int] == y);
            } else {
                let m = choose|m: int| 0 <= m < orig.len() && orig[m] == v;
                if m < pos {
                    assert(keys@[m] == v);
                } else {
                    assert(keys@[m + 1] == v);
                }
            }
        }
    }
}

impl Catalog {
    fn count_lib_year_month(&self, library_id: i64, y: i32, m: i32) -> (n: u64)
        ensures
            n == self.photos@.filter(
                |p: PhotoRecord| p.library_id == library_id && year_of_photo(p) == Option::Some(
                    y as int,
                ) && month_of_photo(p) == Option::Some(m as int),
            ).len(),
    {
        let ghost pred = |p: PhotoRecord| p.library_id == library_id && year_of_photo(p)
            == Option::Some(y as int) && month_of_photo(p) == Option::Some(m as int);
        let mut n: u64 = 0;
        let mut i: usize = 0;
        proof {
            reveal(Seq::filter);
            assert(self.photos@.subrange(0, 0).filter(pred) =~= Seq::<PhotoRecord>::empty());
        }
        while i < self.photos.len()
            invariant
                0 <= i <= self.photos@.len(),
                n <= i,
                pred == (|p: PhotoRecord| p.library_id == library_id && year_of_photo(p)
                    == Option::Some(y as int) && month_of_photo(p) == Option::Some(m as int)),
                n == self.photos@.subrange(0, i as int).filter(pred).len(),
            decreases self.photos@.len() - i,
        {
            proof {
                reveal(Seq::filter);
                let pre = self.photos@.subrange(0, i as int);
                let post = self.photos@.subrange(0, i + 1 as int);
                assert(post.drop_last() =~= pre);
                assert(post.last() == self.photos@[i as int]);
            }
            let hit = self.photos[i].library_id == library_id && (match Self::year_of_photo_exec(
                &self.photos[i],
            ) {
                Some(got) => got == y,
                None => false,
            }) && (match Self::month_of_photo_exec(&self.photos[i]) {
                Some(got) => got == m,
                None => false,
            });
            if hit {
                n = n + 1;
            }
            i = i + 1;
        }
        proof {
            assert(self.photos@.subrange(0, self.photos@.len() as int) =~= self.photos@);
        }
        n
    }

    /// The distinct capture months of one library's photos within one
    /// year, latest month first, each with its photo count.
    pub fn get_months(&self, library_id: i64, year: i32) -> (r: Vec<CategoryMonth>)
        ensures
            forall|a: int, b: int|
                0 <= a < b < r@.len() ==> (#[trigger] r@[a]).month > (#[trigger] r@[b]).month,
            forall|k: int| 0 <= k < r@.len() ==> (#[trigger] r@[k]).year == year,
            forall|k: int|
                0 <= k < r@.len() ==> (#[trigger] r@[k]).count == self.photos@.filter(
                    |p: PhotoRecord| p.library_id == library_id && year_of_photo(p)
                        == Option::Some(year as int) && month_of_photo(p) == Option::Some(
                        r@[k].month as int,
                    ),
                ).len(),
            forall|j: int|
                0 <= j < self.photos@.len() && (#[trigger] self.photos@[j]).library_id
                    == library_id && year_of_photo(self.photos@[j]) == Option::Some(year as int)
                    && month_of_photo(self.photos@[j]) is Some ==> exists|k: int|
                    0 <= k < r@.len() && (#[trigger] r@[k]).month as int == month_of_photo(
                        self.photos@[j],
                    )->Some_0,
    {
        let mut keys: Vec<i32> = Vec::new();
        let mut i: usize = 0;
        while i < self.photos.len()
            invariant
                0 <= i <= self.photos@.len(),
                forall|a: int, b: int|
                    0 <= a < b < keys@.len() ==> (#[trigger] keys@[a]) > (#[trigger] keys@[b]),
                forall|v: i32| #[trigger]
                    keys@.contains(v) <==> (exists|j: int|
                        0 <= j < i && (#[trigger] self.photos@[j]).library_id == library_id
                            && year_of_photo(self.photos@[j]) == Option::Some(year as int)
                            && month_of_photo(self.photos@[j]) == Option::Some(v as int)),
            decreases self.photos@.len() - i,
        {
            let p = &self.photos[i];
            let ghost keys_pre = keys@;
            let mut added: Option<i32> = None;
            if p.library_id == library_id {
                let year_hit = match Self::year_of_photo_exec(p) {
                    Some(got) => got == year,
                    None => false,
                };
                if year_hit {
                    match Self::month_of_photo_exec(p) {
                        Some(m) => {
                            insert_desc_key(&mut keys, m);
                            added = Some(m);
                        },
                        None => {},
                    }
                }
            }
            proof {
                assert forall|v: i32| #[trigger] keys@.contains(v) implies (exists|j: int|
                    0 <= j < i + 1 && (#[trigger] self.photos@[j]).library_id == library_id
                        && year_of_photo(self.photos@[j]) == Option::Some(year as int)
                        && month_of_photo(self.photos@[j]) == Option::Some(v as int)) by {
                    if added matches Some(m) && v == m {
                        assert(self.photos@[i as int].library_id == library_id && year_of_photo(
                            self.photos@[i as int],
                        ) == Option::Some(year as int) && month_of_photo(self.photos@[i as int])
                            == Option::Some(v as int));
                    } else {
                        assert(keys_pre.contains(v));
                        let j = choose|j: int|
                            0 <= j < i && (#[trigger] self.photos@[j]).library_id == library_id
                                && year_of_photo(self.photos@[j]) == Option::Some(year as int)
                                && month_of_photo(self.photos@[j]) == Option::Some(v as int);
                        assert(0 <= j < i + 1 && self.photos@[j].library_id == library_id
                            && year_of_photo(self.photos@[j]) == Option::Some(year as int)
                            && month_of_photo(self.photos@[j]) == Option::Some(v as int));
                    }
                }
                assert forall|v: i32| (exists|j: int|
                    0 <= j < i + 1 && (#[trigger] self.photos@[j]).library_id == library_id
                        && year_of_photo(self.photos@[j]) == Option::Some(year as int)
                        && month_of_photo(self.photos@[j]) == Option::Some(v as int)) implies
                #[trigger] keys@.contains(v) by {
                    let j = choose|j: int|
                        0 <= j < i + 1 && (#[trigger] self.photos@[j]).library_id == library_id
                            && year_of_photo(self.photos@[j]) == Option::Some(year as int)
                            && month_of_photo(self.photos@[j]) == Option::Some(v as int);
                    if j < i {
                        assert(keys_pre.contains(v));
                    } else {
                        assert(added == Some(v));
                    }
                }
            }
            i = i + 1;
        }
        let mut out: Vec<CategoryMonth> = Vec::new();
        let mut k: usize = 0;
        while k < keys.len()
            invariant
                0 <= k <= keys@.len(),
                out@.len() == k,
                forall|a: int, b: int|
                    0 <= a < b < keys@.len() ==> (#[trigger] keys@[a]) > (#[trigger] keys@[b]),
                forall|m: int| 0 <= m < k ==> (#[trigger] out@[m]).month == keys@[m],
                forall|m: int| 0 <= m < k ==> (#[trigger] out@[m]).year == year,
                forall|m: int|
                    0 <= m < k ==> (#[trigger] out@[m]).count == self.photos@.filter(
                        |p: PhotoRecord| p.library_id == library_id && year_of_photo(p)
                            == Option::Some(year as int) && month_of_photo(p) == Option::Some(
                            out@[m].month as int,
                        ),
                    ).len(),
            decreases keys@.len() - k,
        {
            let m = keys[k];
            let n = self.count_lib_year_month(library_id, year, m);
            out.push(CategoryMonth { year, month: m, count: n });
            proof {
                assert((|p: PhotoRecord| p.library_id == library_id && year_of_photo(p)
                    == Option::Some(year as int) && month_of_photo(p) == Option::Some(m as int))
                    =~= (|p: PhotoRecord| p.library_id == library_id && year_of_photo(p)
                    == Option::Some(year as int) && month_of_photo(p) == Option::Some(
                    out@.last().month as int,
                )));
            }
            k = k + 1;
        }
        proof {
            assert forall|j: int|
                0 <= j < self.photos@.len() && (#[trigger] self.photos@[j]).library_id
                    == library_id && year_of_photo(self.photos@[j]) == Option::Some(year as int)
                    && month_of_photo(self.photos@[j]) is Some implies exists|k2: int|
                0 <= k2 < out@.len() && (#[trigger] out@[k2]).month as int == month_of_photo(
                    self.photos@[j],
                )->Some_0 by {
                let v = month_of_photo(self.photos@[j])->Some_0;
                assert(keys@.contains((v as i32))) by {
                    assert(month_of_photo(self.photos@[j]) == Option::Some(((v as i32)) as int));
                }
                let k2 = choose|k2: int| 0 <= k2 < keys@.len() && keys@[k2] == ((v as i32));
                assert(out@[k2].month == keys@[k2]);
            }
        }
        out
    }

    /// How many of one library's rows are photos, videos and other files:
    /// one entry per kind that occurs, in a fixed kind order.
    pub fn get_media_type_counts(&self, library_id: i64) -> (r: Vec<(MediaKind, u64)>)
        ensures
            forall|k: int|
                0 <= k < r@.len() ==> (#[trigger] r@[k]).1 == self.photos@.filter(
                    |p: PhotoRecord| p.library_id == library_id && p.media_type == r@[k].0,
                ).len() && r@[k].1 > 0,
            self.photos@.filter(
                |p: PhotoRecord| p.library_id == library_id && p.media_type == MediaKind::Photo,
            ).len() > 0 ==> exists|k: int|
                0 <= k < r@.len() && (#[trigger] r@[k]).0 == MediaKind::Photo,
            self.photos@.filter(
                |p: PhotoRecord| p.library_id == library_id && p.media_type == MediaKind::Video,
            ).len() > 0 ==> exists|k: int|
                0 <= k < r@.len() && (#[trigger] r@[k]).0 == MediaKind::Video,
            self.photos@.filter(
                |p: PhotoRecord| p.library_id == library_id && p.media_type == MediaKind::Other,
            ).len() > 0 ==> exists|k: int|
                0 <= k < r@.len() && (#[trigger] r@[k]).0 == MediaKind::Other,
    {
        let np = self.count_lib_kind(library_id, MediaKind::Photo);
        let nv = self.count_lib_kind(library_id, MediaKind::Video);
        let no = self.count_lib_kind(library_id, MediaKind::Other);
        let mut out: Vec<(MediaKind, u64)> = Vec::new();
        if np > 0 {
            out.push((MediaKind::Photo, np));
        }
        if nv > 0 {
            out.push((MediaKind::Video, nv));
        }
        if no > 0 {
            out.push((MediaKind::Other, no));
        }
        proof {
            if np > 0 {
                assert(out@[0].0 == MediaKind::Photo);
            }
            if nv > 0 {
                let k: int = if np > 0 {
                    1
                } else {
                    0
                };
                assert(out@[k].0 == MediaKind::Video);
            }
            if no > 0 {
                assert(out@[out@.len() - 1].0 == MediaKind::Other);
            }
        }
        out
    }

    fn count_lib_kind(&self, library_id: i64, kind: MediaKind) -> (n: u64)
        ensures
            n == self.photos@.filter(
                |p: PhotoRecord| p.library_id == library_id && p.media_type == kind,
            ).len(),
    {
        let ghost pred = |p: PhotoRecord| p.library_id == library_id && p.media_type == kind;
        let mut n: u64 = 0;
        let mut i: usize = 0;
        proof {
            reveal(Seq::filter);
            assert(self.photos@.subrange(0, 0).filter(pred) =~= Seq::<PhotoRecord>::empty());
        }
        while i < self.photos.len()
            invariant
                0 <= i <= self.photos@.len(),
                n <= i,
                pred == (|p: PhotoRecord| p.library_id == library_id && p.media_type == kind),
                n == self.photos@.subrange(0, i as int).filter(pred).len(),
            decreases self.photos@.len() - i,
        {
            proof {
                reveal(Seq::filter);
                let pre = self.photos@.subrange(0, i as int);
                let post = self.photos@.subrange(0, i + 1 as int);
                assert(post.drop_last() =~= pre);
                assert(post.last() == self.photos@[i as int]);
            }
            if self.photos[i].library_id == library_id && self.photos[i].media_type == kind {
                n = n + 1;
            }
            i = i + 1;
        }
        proof {
            assert(self.photos@.subrange(0, self.photos@.len() as int) =~= self.photos@);
        }
        n
    }
}

/// Whether a list of folder names holds one name (by contents).
pub open spec fn folder_listed(keys: Seq<String>, v: Seq<char>) -> bool {
    exists|k: int| 0 <= k < keys.len() && (#[trigger] keys[k])@ == v
}

/// Inserts a folder name into a strictly ascending list, keeping it
/// strictly ascending; a name already present is left alone.
fn insert_asc_folder(keys: &mut Vec<String>, f: &str)
    requires
        forall|a: int, b: int|
            0 <= a < b < old(keys)@.len() ==> lex_le(
                (#[trigger] old(keys)@[a])@,
                (#[trigger] old(keys)@[b])@,
            ) && old(keys)@[a]@ != old(keys)@[b]@,
    ensures
        forall|a: int, b: int|
            0 <= a < b < final(keys)@.len() ==> lex_le(
                (#[trigger] final(keys)@[a])@,
                (#[trigger] final(keys)@[b])@,
            ) && final(keys)@[a]@ != final(keys)@[b]@,
        forall|v: Seq<char>| #[trigger]
            folder_listed(final(keys)@, v) <==> (folder_listed(old(keys)@, v) || v == f@),
{
    let ghost orig = keys@;
    let mut pos: usize = 0;
    let mut dup: bool = false;
    while pos < keys.len() && !dup && crate::strutil::str_cmp(keys[pos].as_str(), f)
        == crate::strutil::Rel::Below
        invariant
            0 <= pos <= keys@.len(),
            keys@ == orig,
            forall|m: int|
                0 <= m < pos ==> lex_le((#[trigger] orig[m])@, f@) && orig[m]@ != f@,
            dup ==> pos < keys@.len() && orig[pos as int]@ == f@,
        decreases keys@.len() - pos + (if dup { 0int } else { 1int }),
    {
        if crate::strutil::str_eq(keys[pos].as_str(), f) {
            dup = true;
        } else {
            pos = pos + 1;
        }
    }
    let already = dup || (pos < keys.len() && crate::strutil::str_eq(keys[pos].as_str(), f));
    if already {
        proof {
            let posd: int = pos as int;
            assert(orig[posd]@ == f@);
            assert forall|v: Seq<char>| #[trigger]
                folder_listed(keys@, v) implies (folder_listed(orig, v) || v == f@) by {}
            assert(folder_listed(orig, f@)) by {
                assert(orig[posd]@ == f@);
            }
        }
        return ;
    }
    proof {
        if pos < keys@.len() {
            crate::strutil::lemma_lex_le_total(orig[pos as int]@, f@);
        }
    }
    keys.insert(pos, f.to_owned());
    proof {
        assert forall|a: int, b: int|
            0 <= a < b < keys@.len() implies lex_le(
            (#[trigger] keys@[a])@,
            (#[trigger] keys@[b])@,
        ) && keys@[a]@ != keys@[b]@ by {
            let av: Seq<char> = if a < pos {
                orig[a]@
            } else if a == pos {
                f@
            } else {
                orig[a - 1]@
            };
            let bv: Seq<char> = if b < pos {
                orig[b]@
            } else if b == pos {
                f@
            } else {
                orig[b - 1]@
            };
            assert(keys@[a]@ == av && keys@[b]@ == bv);
            if b == pos {
                assert(lex_le(orig[a]@, f@) && orig[a]@ != f@);
            } else if a == pos {
                // f precedes the element it displaced, which precedes the rest.
                assert(lex_le(f@, orig[b - 1]@) && f@ != orig[b - 1]@) by {
                    assert(lex_le(f@, orig[pos as int]@));
                    if f@ == orig[pos as int]@ {
                        assert(false);
                    }
                    if b - 1 > pos {
                        assert(lex_le(orig[pos as int]@, orig[b - 1]@) && orig[pos as int]@
                            != orig[b - 1]@);
                        crate::strutil::lemma_lex_le_trans(f@, orig[pos as int]@, orig[b - 1]@);
                        if f@ == orig[b - 1]@ {
                            crate::strutil::lemma_lex_le_antisym(orig[pos as int]@, orig[b - 1]@);
                        }
                    }
                }
            } else if a < pos && b > pos {
                assert(lex_le(orig[a]@, f@) && orig[a]@ != f@);
                assert(lex_le(f@, orig[b - 1]@)) by {
                    assert(lex_le(f@, orig[pos as int]@));
                    if b - 1 > pos {
                        assert(lex_le(orig[pos as int]@, orig[b - 1]@));
                        crate::strutil::lemma_lex_le_trans(f@, orig[pos as int]@, orig[b - 1]@);
                    }
                }
                crate::strutil::lemma_lex_le_trans(orig[a]@, f@, orig[b - 1]@);
                if orig[a]@ == orig[b - 1]@ {
                    crate::strutil::lemma_lex_le_antisym(orig[a]@, f@);
                }
            }
        }
        assert forall|v: Seq<char>| #[trigger]
            folder_listed(keys@, v) implies (folder_listed(orig, v) || v == f@) by {
            let m = choose|m: int| 0 <= m < keys@.len() && (#[trigger] keys@[m])@ == v;
            if m < pos {
                assert(orig[m]@ == v);
            } else if m > pos {
                assert(orig[m - 1]@ == v);
            }
        }
        assert forall|v: Seq<char>| (folder_listed(orig, v) || v == f@) implies #[trigger]
        folder_listed(keys@, v) by {
            if v == f@ {
                assert(keys@[pos as int]@ == v);
            } else {
                let m = choose|m: int| 0 <= m < orig.len() && (#[trigger] orig[m])@ == v;
                if m < pos {
                    assert(keys@[m]@ == v);
                } else {
                    assert(keys@[m + 1]@ == v);
                }
            }
        }
    }
}

impl Catalog {
    fn count_lib_folder(&self, library_id: i64, f: &str) -> (n: u64)
        ensures
            n == self.photos@.filter(
                |p: PhotoRecord| p.library_id == library_id && p.folder_rel@ == f@,
            ).len(),
    {
        let ghost pred = |p: PhotoRecord| p.library_id == library_id && p.folder_rel@ == f@;
        let mut n: u64 = 0;
        let mut i: usize = 0;
        proof {
            reveal(Seq::filter);
            assert(self.photos@.subrange(0, 0).filter(pred) =~= Seq::<PhotoRecord>::empty());
        }
        while i < self.photos.len()
            invariant
                0 <= i <= self.photos@.len(),
                n <= i,
                pred == (|p: PhotoRecord| p.library_id == library_id && p.folder_rel@ == f@),
                n == self.photos@.subrange(0, i as int).filter(pred).len(),
            decreases self.photos@.len() - i,
        {
            proof {
                reveal(Seq::filter);
                let pre = self.photos@.subrange(0, i as int);
                let post = self.photos@.subrange(0, i + 1 as int);
                assert(post.drop_last() =~= pre);
                assert(post.last() == self.photos@[i as int]);
            }
            if self.photos[i].library_id == library_id && crate::strutil::str_eq(
                self.photos[i].folder_rel.as_str(),
                f,
            ) {
                n = n + 1;
            }
            i = i + 1;
        }
        proof {
            assert(self.photos@.subrange(0, self.photos@.len() as int) =~= self.photos@);
        }
        n
    }

    /// The distinct folders of one library's photos, in folder order, each
    /// with its photo count.
    pub fn get_folders_flat(&self, library_id: i64) -> (r: Vec<(String, u64)>)
        ensures
            forall|a: int, b: int|
                0 <= a < b < r@.len() ==> lex_le((#[trigger] r@[a]).0@, (#[trigger] r@[b]).0@)
                    && r@[a].0@ != r@[b].0@,
            forall|k: int|
                0 <= k < r@.len() ==> (#[trigger] r@[k]).1 == self.photos@.filter(
                    |p: PhotoRecord| p.library_id == library_id && p.folder_rel@ == r@[k].0@,
                ).len(),
            forall|j: int|
                0 <= j < self.photos@.len() && (#[trigger] self.photos@[j]).library_id
                    == library_id ==> exists|k: int|
                    0 <= k < r@.len() && (#[trigger] r@[k]).0@ == self.photos@[j].folder_rel@,
    {
        let mut keys: Vec<String> = Vec::new();
        let mut i: usize = 0;
        while i < self.photos.len()
            invariant
                0 <= i <= self.photos@.len(),
                forall|a: int, b: int|
                    0 <= a < b < keys@.len() ==> lex_le(
                        (#[trigger] keys@[a])@,
                        (#[trigger] keys@[b])@,
                    ) && keys@[a]@ != keys@[b]@,
                forall|v: Seq<char>| #[trigger]
                    folder_listed(keys@, v) <==> (exists|j: int|
                        0 <= j < i && (#[trigger] self.photos@[j]).library_id == library_id
                            && self.photos@[j].folder_rel@ == v),
            decreases self.photos@.len() - i,
        {
            let ghost keys_pre = keys@;
            let mut added: bool = false;
            if self.photos[i].library_id == library_id {
                insert_asc_folder(&mut keys, self.photos[i].folder_rel.as_str());
                added = true;
            }
            proof {
                assert forall|v: Seq<char>| #[trigger] folder_listed(keys@, v) implies (exists|
                    j: int,
                |
                    0 <= j < i + 1 && (#[trigger] self.photos@[j]).library_id == library_id
                        && self.photos@[j].folder_rel@ == v) by {
                    if added && v == self.photos@[i as int].folder_rel@ {
                        assert(self.photos@[i as int].library_id == library_id);
                    } else {
                        assert(folder_listed(keys_pre, v));
                        let j = choose|j: int|
                            0 <= j < i && (#[trigger] self.photos@[j]).library_id == library_id
                                && self.photos@[j].folder_rel@ == v;
                        assert(0 <= j < i + 1 && self.photos@[j].library_id == library_id
                            && self.photos@[j].folder_rel@ == v);
                    }
                }
                assert forall|v: Seq<char>| (exists|j: int|
                    0 <= j < i + 1 && (#[trigger] self.photos@[j]).library_id == library_id
                        && self.photos@[j].folder_rel@ == v) implies #[trigger] folder_listed(
                    keys@,
                    v,
                ) by {
                    let j = choose|j: int|
                        0 <= j < i + 1 && (#[trigger] self.photos@[j]).library_id == library_id
                            && self.photos@[j].folder_rel@ == v;
                    if j < i {
                        assert(folder_listed(keys_pre, v));
                    }
                }
            }
            i = i + 1;
        }
        let mut out: Vec<(String, u64)> = Vec::new();
        let mut k: usize = 0;
        while k < keys.len()
            invariant
                0 <= k <= keys@.len(),
                out@.len() == k,
                forall|a: int, b: int|
                    0 <= a < b < keys@.len() ==> lex_le(
                        (#[trigger] keys@[a])@,
                        (#[trigger] keys@[b])@,
                    ) && keys@[a]@ != keys@[b]@,
                forall|m: int| 0 <= m < k ==> (#[trigger] out@[m]).0@ == keys@[m]@,
                forall|m: int|
                    0 <= m < k ==> (#[trigger] out@[m]).1 == self.photos@.filter(
                        |p: PhotoRecord| p.library_id == library_id && p.folder_rel@
                            == out@[m].0@,
                    ).len(),
            decreases keys@.len() - k,
        {
            let f = keys[k].clone();
            let n = self.count_lib_folder(library_id, f.as_str());
            out.push((f, n));
            proof {
                let fv = out@.last().0@;
                assert((|p: PhotoRecord| p.library_id == library_id && p.folder_rel@
                    == keys@[k as int]@) =~= (|p: PhotoRecord| p.library_id == library_id
                    && p.folder_rel@ == fv));
                assert((|p: PhotoRecord| p.library_id == library_id && p.folder_rel@
                    == out@.last().0@) =~= (|p: PhotoRecord| p.library_id == library_id
                    && p.folder_rel@ == fv));
            }
            k = k + 1;
        }
        proof {
            assert forall|j: int|
                0 <= j < self.photos@.len() && (#[trigger] self.photos@[j]).library_id
                    == library_id implies exists|k2: int|
                0 <= k2 < out@.len() && (#[trigger] out@[k2]).0@
                    == self.photos@[j].folder_rel@ by {
                assert(folder_listed(keys@, self.photos@[j].folder_rel@));
                let k2 = choose|k2: int|
                    0 <= k2 < keys@.len() && (#[trigger] keys@[k2])@
                        == self.photos@[j].folder_rel@;
                assert(out@[k2].0@ == keys@[k2]@);
            }
        }
        out
    }
}

/// The columns that schema evolution added to the photo table after its
/// first shape: every open of the store checks for them and adds only the
/// missing ones, so migration is idempotent and never destructive.
pub open spec fn evolved_photo_columns() -> Seq<Seq<char>> {
    seq![
        "is_favorite"@,
        "is_deleted"@,
        "deleted_at"@,
        "camera_make"@,
        "camera_model"@,
        "lens"@,
        "iso"@,
        "shutter_speed"@,
        "aperture"@,
        "focal_length"@,
        "gps_lat"@,
        "gps_lon"@,
    ]
}

/// Whether a list of column names holds one name (by contents).
pub open spec fn column_listed(cols: Seq<String>, v: Seq<char>) -> bool {
    exists|k: int| 0 <= k < cols.len() && (#[trigger] cols[k])@ == v
}

/// Tests whether a list of column names holds one name.
fn column_present(cols: &Vec<String>, name: &str) -> (r: bool)
    ensures
        r == column_listed(cols@, name@),
{
    let mut i: usize = 0;
    while i < cols.len()
        invariant
            0 <= i <= cols@.len(),
            forall|k: int| 0 <= k < i ==> (#[trigger] cols@[k])@ != name@,
        decreases cols@.len() - i,
    {
        if crate::strutil::str_eq(cols[i].as_str(), name) {
            proof {
                assert(cols@[i as int]@ == name@);
            }
            return true;
        }
        i = i + 1;
    }
    proof {
        if column_listed(cols@, name@) {
            let k = choose|k: int| 0 <= k < cols@.len() && (#[trigger] cols@[k])@ == name@;
        }
    }
    false
}

/// The evolved columns a table is still missing, in declaration order:
/// exactly the `ALTER TABLE ... ADD COLUMN` statements a migration must
/// run. A table that already has every column needs none.
pub fn missing_photo_columns(existing: &Vec<String>) -> (r: Vec<String>)
    ensures
        crate::catalog::str_views(r@) == evolved_photo_columns().filter(
            |c: Seq<char>| !column_listed(existing@, c),
        ),
{
    let ghost pred = |c: Seq<char>| !column_listed(existing@, c);
    let names: [&'static str; 12] = [
        "is_favorite",
        "is_deleted",
        "deleted_at",
        "camera_make",
        "camera_model",
        "lens",
        "iso",
        "shutter_speed",
        "aperture",
        "focal_length",
        "gps_lat",
        "gps_lon",
    ];
    let mut out: Vec<String> = Vec::new();
    let mut i: usize = 0;
    proof {
        reveal(Seq::filter);
        assert(evolved_photo_columns().subrange(0, 0).filter(pred) =~= Seq::<Seq<char>>::empty());
        assert(str_views(out@) =~= Seq::<Seq<char>>::empty());
    }
    while i < 12
        invariant
            0 <= i <= 12,
            pred == (|c: Seq<char>| !column_listed(existing@, c)),
            forall|k: int| 0 <= k < 12 ==> (#[trigger] names@[k])@ == evolved_photo_columns()[k],
            str_views(out@) == evolved_photo_columns().subrange(0, i as int).filter(pred),
        decreases 12 - i,
    {
        let ghost pre = evolved_photo_columns().subrange(0, i as int);
        let ghost post = evolved_photo_columns().subrange(0, i + 1 as int);
        proof {
            reveal(Seq::filter);
            assert(post.drop_last() =~= pre);
            assert(post.last() == evolved_photo_columns()[i as int]);
        }
        let name = names[i];
        if !column_present(existing, name) {
            let ghost out_pre = out@;
            out.push(name.to_owned());
            proof {
                assert(str_views(out@) =~= str_views(out_pre).push(
                    evolved_photo_columns()[i as int],
                ));
            }
        }
        i = i + 1;
    }
    proof {
        assert(evolved_photo_columns().subrange(0, 12) =~= evolved_photo_columns());
    }
    out
}

} // verus!
