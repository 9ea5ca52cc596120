//! The catalog's cross-operation guarantees, stated and proved once: the
//! idempotence of re-indexing, the uniqueness of paths and positions, the
//! self-inverse favorite toggle, the reversibility of soft deletion, and
//! the stability of album ordering.
use vstd::prelude::*;
use vstd::relations::sorted_by;
use crate::catalog::Catalog;
use crate::catalog::PhotoView;
use crate::catalog::AlbumPhotoRow;
use crate::catalog::photo_views;
use crate::catalog::photo_view_of;
use crate::catalog::photo_index_by_id;
use crate::catalog::lemma_photo_index_by_id;
use crate::catalog::insert_photo_rel;
use crate::catalog::toggle_favorite_rel;
use crate::catalog::restored_view;
use crate::catalog::soft_deleted_view;
use crate::catalog::matches_photo_filter;
use crate::catalog::add_album_pairs_spec;
use crate::catalog::page_spec;
use crate::order::sort_spec;
use crate::order::le_rel;
use crate::order::lemma_sort_spec_ensures;
use crate::scan::MediaKind;

verus! {

/// Re-indexing an unchanged file is idempotent: writing the same scanned
/// file to the same library twice leaves exactly the rows the first write
/// left — the same row count and the same field values, with no duplicate
/// for the path.
pub proof fn lemma_reindex_idempotent(
    c0: Catalog,
    c1: Catalog,
    c2: Catalog,
    library_id: i64,
    file: crate::scan::ScannedFile,
)
    requires
        c0.wf(),
        c1.wf(),
        insert_photo_rel(c0, c1, library_id, file),
        insert_photo_rel(c1, c2, library_id, file),
    ensures
        c2.photos@.len() == c1.photos@.len(),
        photo_views(c2.photos@) == photo_views(c1.photos@),
{
    // After the first write some row carries (library_id, path).
    let matched_before = exists|i: int|
        0 <= i < c0.photos@.len() && (#[trigger] c0.photos@[i]).library_id == library_id
            && c0.photos@[i].path@ == file.path@;
    if matched_before {
        let i = choose|i: int|
            0 <= i < c0.photos@.len() && (#[trigger] c0.photos@[i]).library_id == library_id
                && c0.photos@[i].path@ == file.path@;
        assert(c1.photos@[i]@ == photo_view_of(file, library_id, c0.photos@[i].id));
        assert(c1.photos@[i].library_id == library_id && c1.photos@[i].path@ == file.path@);
    } else {
        assert(c1.photos@.last()@ == photo_view_of(file, library_id, c0.next_photo_id));
        assert(c1.photos@[c1.photos@.len() - 1].library_id == library_id
            && c1.photos@[c1.photos@.len() - 1].path@ == file.path@);
    }
    // So the second write takes the overwrite branch, and the overwritten
    // row's fields were already exactly the file's fields under its id.
    assert(c2.photos@.len() == c1.photos@.len());
    assert forall|k: int| 0 <= k < c1.photos@.len() implies #[trigger] c2.photos@[k]@
        == c1.photos@[k]@ by {
        let o = c1.photos@[k];
        if o.library_id == library_id && o.path@ == file.path@ {
            assert(c2.photos@[k]@ == photo_view_of(file, library_id, o.id));
            if matched_before {
                let i = choose|i: int|
                    0 <= i < c0.photos@.len() && (#[trigger] c0.photos@[i]).library_id
                        == library_id && c0.photos@[i].path@ == file.path@;
                assert(k == i) by {
                    if k != i {
                        assert(c1.photos@[i].library_id == library_id && c1.photos@[i].path@
                            == file.path@);
                    }
                }
                assert(o@ == photo_view_of(file, library_id, c0.photos@[i].id));
            } else {
                assert(k == c1.photos@.len() - 1) by {
                    if k < c1.photos@.len() - 1 {
                        assert(c1.photos@[k] == c0.photos@[k]);
                        assert(c1.photos@[c1.photos@.len() - 1].library_id == library_id
                            && c1.photos@[c1.photos@.len() - 1].path@ == file.path@);
                    }
                }
                assert(o@ == photo_view_of(file, library_id, c0.next_photo_id));
            }
        }
    }
    assert(photo_views(c2.photos@) =~= photo_views(c1.photos@));
}

/// Writing a file whose path is new to the library adds exactly one row
/// and leaves every existing row untouched: distinct paths never collide.
pub proof fn lemma_insert_new_path_adds_row(
    c0: Catalog,
    c1: Catalog,
    library_id: i64,
    file: crate::scan::ScannedFile,
)
    requires
        c0.wf(),
        insert_photo_rel(c0, c1, library_id, file),
        forall|i: int|
            0 <= i < c0.photos@.len() ==> !((#[trigger] c0.photos@[i]).library_id == library_id
                && c0.photos@[i].path@ == file.path@),
    ensures
        c1.photos@.len() == c0.photos@.len() + 1,
        forall|i: int| 0 <= i < c0.photos@.len() ==> #[trigger] c1.photos@[i] == c0.photos@[i],
        c1.photos@.last()@ == photo_view_of(file, library_id, c0.next_photo_id),
{
}

/// Paths never collide: two distinct rows of a well-formed catalog never
/// share a library and a path, and ids never repeat.
pub proof fn lemma_no_duplicate_paths(c: Catalog, i: int, j: int)
    requires
        c.wf(),
        0 <= i < c.photos@.len(),
        0 <= j < c.photos@.len(),
        i != j,
    ensures
        !(c.photos@[i].library_id == c.photos@[j].library_id && c.photos@[i].path@
            == c.photos@[j].path@),
        c.photos@[i].id != c.photos@[j].id,
{
}

/// The favorite toggle is self-inverse: toggling the same photo twice
/// returns every row to its original state.
pub proof fn lemma_toggle_self_inverse(
    c0: Catalog,
    c1: Catalog,
    c2: Catalog,
    photo_id: i64,
    r1: Result<bool, crate::catalog::CatalogError>,
    r2: Result<bool, crate::catalog::CatalogError>,
)
    requires
        c0.wf(),
        toggle_favorite_rel(c0, c1, photo_id, r1),
        toggle_favorite_rel(c1, c2, photo_id, r2),
        r1 is Ok,
    ensures
        r2 is Ok,
        r2->Ok_0 == !r1->Ok_0,
        photo_views(c2.photos@) == photo_views(c0.photos@),
{
    let i = photo_index_by_id(c0.photos@, photo_id);
    lemma_photo_index_by_id(c0.photos@, photo_id);
    assert(c1.photos@[i].id == photo_id);
    assert forall|j: int| 0 <= j < i implies (#[trigger] c1.photos@[j]).id != photo_id by {
        assert(c1.photos@[j] == c0.photos@[j]);
    }
    assert(photo_index_by_id(c1.photos@, photo_id) == i) by {
        lemma_photo_index_by_id(c1.photos@, photo_id);
        let m = photo_index_by_id(c1.photos@, photo_id);
        if m < i {
            assert(c1.photos@[m].id != photo_id);
        }
        if m > i || m < 0 {
            assert(c1.photos@[i].id == photo_id);
        }
    }
    assert forall|k: int| 0 <= k < c0.photos@.len() implies #[trigger] c2.photos@[k]@
        == c0.photos@[k]@ by {
        if k != i {
            assert(c1.photos@[k] == c0.photos@[k]);
            assert(c2.photos@[k] == c1.photos@[k]);
        }
    }
    assert(photo_views(c2.photos@) =~= photo_views(c0.photos@));
}

/// Soft deletion is reversible and restoration is complete: restoring a
/// soft-deleted row clears both the deletion flag and the deletion
/// timestamp, recovering the original row exactly.
pub proof fn lemma_restore_clears_deletion(v: PhotoView, now: Seq<char>)
    requires
        !v.is_deleted,
        v.deleted_at is None,
    ensures
        restored_view(soft_deleted_view(v, now)) == v,
        soft_deleted_view(v, now).is_deleted,
        soft_deleted_view(v, now).deleted_at == Some(now),
        !restored_view(soft_deleted_view(v, now)).is_deleted,
        restored_view(soft_deleted_view(v, now)).deleted_at is None,
{
    assert(restored_view(soft_deleted_view(v, now)) =~= v);
}

/// Soft-deleted rows never appear in a photo listing: the listing filter
/// excludes them whatever the other filters say.
pub proof fn lemma_deleted_rows_not_listed(
    v: PhotoView,
    library_id: i64,
    year: Option<i32>,
    month: Option<i32>,
    folder: Option<Seq<char>>,
    media: Option<MediaKind>,
)
    requires
        v.is_deleted,
    ensures
        !matches_photo_filter(v, library_id, year, month, folder, media),
{
}

/// Appending to an album never reorders or removes what is already there:
/// the existing association rows keep their places and positions, whatever
/// ids are appended and however they overlap.
pub proof fn lemma_album_append_preserves_existing(
    aps: Seq<AlbumPhotoRow>,
    ids: Seq<i64>,
    album_id: i64,
    base: int,
)
    ensures
        add_album_pairs_spec(aps, ids, album_id, base).len() >= aps.len(),
        forall|i: int|
            0 <= i < aps.len() ==> #[trigger] add_album_pairs_spec(aps, ids, album_id, base)[i]
                == aps[i],
    decreases ids.len(),
{
    if ids.len() > 0 {
        lemma_album_append_preserves_existing(aps, ids.drop_last(), album_id, base);
        let prev = add_album_pairs_spec(aps, ids.drop_last(), album_id, base);
        assert forall|i: int|
            0 <= i < aps.len() implies #[trigger] add_album_pairs_spec(aps, ids, album_id, base)[i]
            == aps[i] by {
            assert(prev[i] == aps[i]);
        }
    }
}

/// Within one album of a well-formed catalog no two association rows share
/// a photo and no two share a position.
pub proof fn lemma_album_positions_distinct(c: Catalog, i: int, j: int)
    requires
        c.wf(),
        0 <= i < c.album_photos@.len(),
        0 <= j < c.album_photos@.len(),
        i != j,
        c.album_photos@[i].album_id == c.album_photos@[j].album_id,
    ensures
        c.album_photos@[i].photo_id != c.album_photos@[j].photo_id,
        c.album_photos@[i].position != c.album_photos@[j].position,
{
}

/// Every row of a photo-listing page satisfies the listing filter, and the
/// page is sorted in the default order: what `getPhotos` promises of each
/// returned row.
pub proof fn lemma_listed_page_matches_filter(
    views: Seq<PhotoView>,
    pred: spec_fn(PhotoView) -> bool,
    off: int,
    lim: int,
)
    requires
        0 <= off,
        0 <= lim,
    ensures
        sorted_by(page_spec(sort_spec(views.filter(pred)), off, lim), le_rel::<PhotoView>()),
        forall|i: int|
            0 <= i < page_spec(sort_spec(views.filter(pred)), off, lim).len() ==> pred(
                #[trigger] page_spec(sort_spec(views.filter(pred)), off, lim)[i],
            ),
{
    broadcast use vstd::seq_lib::group_filter_ensures;

    let f = views.filter(pred);
    let s = sort_spec(f);
    lemma_sort_spec_ensures(f);
    let p = page_spec(s, off, lim);
    assert forall|i: int| 0 <= i < p.len() implies pred(#[trigger] p[i]) by {
        let lo = if off > s.len() {
            s.len() as int
        } else {
            off
        };
        assert(p[i] == s[lo + i]);
        assert(s.contains(s[lo + i]));
        assert(f.contains(s[lo + i]));
        let k = choose|k: int| 0 <= k < f.len() && f[k] == s[lo + i];
        assert(pred(f[k]));
    }
    assert forall|i: int, j: int| 0 <= i < j < p.len() implies #[trigger] le_rel::<PhotoView>()(
        p[i],
        p[j],
    ) by {
        let lo = if off > s.len() {
            s.len() as int
        } else {
            off
        };
        assert(p[i] == s[lo + i]);
        assert(p[j] == s[lo + j]);
        assert(le_rel::<PhotoView>()(s[lo + i], s[lo + j]));
    }
}

} // verus!
