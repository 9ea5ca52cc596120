use photo_catalog::pipeline::chunk_bounds;
use photo_catalog::scan::MediaKind;
use photo_catalog::thumb::ThumbAction;
use photo_catalog::thumb::hash_path;
use photo_catalog::thumb::thumb_file_name;
use photo_catalog::thumb::thumb_post_gate;
use photo_catalog::thumb::thumb_pre_gate;
use photo_catalog::catalog::Catalog;
use photo_catalog::timefmt::modified_time_string;

#[test]
fn cache_key_is_stable_and_hexadecimal() {
    let a = hash_path("/photos/img.jpg");
    let b = hash_path("/photos/img.jpg");
    assert_eq!(a, b);
    assert_eq!(a.len(), 16);
    assert!(a.chars().all(|c| c.is_ascii_hexdigit()));
    let other = hash_path("/photos/img2.jpg");
    assert_ne!(a, other);
    assert_eq!(thumb_file_name("/photos/img.jpg"), format!("{}.jpg", a));
}

#[test]
fn thumbnail_decisions() {
    assert_eq!(thumb_pre_gate(true, true, MediaKind::Photo), ThumbAction::UseCached);
    assert_eq!(thumb_pre_gate(false, false, MediaKind::Photo), ThumbAction::SourceMissing);
    assert_eq!(thumb_pre_gate(false, true, MediaKind::Video), ThumbAction::Unsupported);
    assert_eq!(thumb_pre_gate(false, true, MediaKind::Other), ThumbAction::Unsupported);
    assert_eq!(
        thumb_pre_gate(false, true, MediaKind::Photo),
        ThumbAction::AcquireAndGenerate
    );
    // An existing thumbnail wins even for a kind that would be refused.
    assert_eq!(thumb_pre_gate(true, true, MediaKind::Other), ThumbAction::UseCached);
    assert_eq!(thumb_post_gate(true), ThumbAction::UseCached);
    assert_eq!(thumb_post_gate(false), ThumbAction::AcquireAndGenerate);
}

#[test]
fn batches_partition_the_candidate_list() {
    assert!(chunk_bounds(0, 20).is_empty());
    let bounds = chunk_bounds(45, 20);
    assert_eq!(bounds, vec![(0, 20), (20, 40), (40, 45)]);
    let exact = chunk_bounds(40, 20);
    assert_eq!(exact, vec![(0, 20), (20, 40)]);
}

#[test]
fn renders_modification_times_with_epoch_fallback() {
    assert_eq!(modified_time_string(None), "1970-01-01T00:00:00Z");
    assert_eq!(modified_time_string(Some(0)), "1970-01-01T00:00:00Z");
    assert_eq!(modified_time_string(Some(1_700_000_000)), "2023-11-14T22:13:20Z");
    assert_eq!(modified_time_string(Some(951_782_400)), "2000-02-29T00:00:00Z");
    assert_eq!(modified_time_string(Some(u64::MAX)), "1970-01-01T00:00:00Z");
}

#[test]
fn album_stamped_with_clock_time() {
    let mut c = Catalog::new();
    let album = c.create_album_now("fresh");
    assert_eq!(album.name, "fresh");
    let now = album.created_at;
    assert_eq!(now.len(), 20);
    assert_eq!(&now[4..5], "-");
    assert_eq!(&now[10..11], "T");
    assert_eq!(&now[19..20], "Z");
}
