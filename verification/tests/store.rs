use avif_generator::db::{Album, StateStore, SyncedImage};
use avif_generator::disk::Disk;

fn store_with_one_image() -> StateStore {
    let mut store = StateStore::new();
    SyncedImage::upsert(
        &mut store,
        "i1",
        "a1",
        "photo.jpg",
        Some("sum1"),
        Some("./data/original/a1/photo.jpg"),
        Some(1000),
        11,
    );
    store
}

#[test]
fn album_upsert_inserts_then_updates() {
    let mut store = StateStore::new();
    Album::upsert(&mut store, "a1", "Holidays", 3, 10);
    assert_eq!(store.albums.len(), 1);
    assert_eq!(store.albums[0].name, "Holidays");
    assert_eq!(store.albums[0].asset_count, Some(3));
    assert_eq!(store.albums[0].last_sync, Some(10));

    Album::upsert(&mut store, "a1", "Holidays 2024", 5, 20);
    assert_eq!(store.albums.len(), 1, "upsert must not duplicate the id");
    assert_eq!(store.albums[0].name, "Holidays 2024");
    assert_eq!(store.albums[0].asset_count, Some(5));
    assert_eq!(store.albums[0].last_sync, Some(20));
}

#[test]
fn album_get_all_and_by_id() {
    let mut store = StateStore::new();
    Album::upsert(&mut store, "a1", "One", 1, 10);
    Album::upsert(&mut store, "a2", "Two", 2, 10);
    let all = Album::get_all(&store);
    assert_eq!(all.len(), 2);
    assert_eq!(all[0].id, "a1");
    assert_eq!(all[1].id, "a2");
    assert_eq!(Album::get_by_id(&store, "a2").unwrap().name, "Two");
    assert!(Album::get_by_id(&store, "a3").is_none());
}

#[test]
fn album_listing_sorts_by_name() {
    let mut store = StateStore::new();
    Album::upsert(&mut store, "a1", "Winter", 1, 10);
    Album::upsert(&mut store, "a2", "Autumn", 2, 10);
    Album::upsert(&mut store, "a3", "Spring", 3, 10);
    let all = Album::get_all(&store);
    let names: Vec<&str> = all.iter().map(|a| a.name.as_str()).collect();
    assert_eq!(names, vec!["Autumn", "Spring", "Winter"]);
}

#[test]
fn album_records_sort_by_filename() {
    let mut store = StateStore::new();
    SyncedImage::upsert(&mut store, "i1", "a1", "c.jpg", None, Some("p1"), None, 1);
    SyncedImage::upsert(&mut store, "i2", "a1", "a.jpg", None, Some("p2"), None, 1);
    SyncedImage::upsert(&mut store, "i3", "a1", "b.jpg", None, Some("p3"), None, 1);
    let recs = SyncedImage::get_by_album(&store, "a1");
    let files: Vec<&str> = recs.iter().map(|r| r.filename.as_str()).collect();
    assert_eq!(files, vec!["a.jpg", "b.jpg", "c.jpg"]);
}

#[test]
fn pagination_follows_filename_order() {
    let mut store = StateStore::new();
    for (id, file) in [("i1", "c.jpg"), ("i2", "a.jpg"), ("i3", "b.jpg")] {
        SyncedImage::upsert(&mut store, id, "a1", file, None, Some("p"), None, 1);
        SyncedImage::mark_converted(&mut store, id, &format!("{id}.avif"), &format!("{id}_t.avif"), 2);
    }
    let page = SyncedImage::get_by_album_paginated(&store, "a1", 1, 2);
    let files: Vec<&str> = page.iter().map(|r| r.filename.as_str()).collect();
    assert_eq!(files, vec!["b.jpg", "c.jpg"]);
}

#[test]
fn image_upsert_creates_record_with_sync_fields() {
    let store = store_with_one_image();
    assert_eq!(store.images.len(), 1);
    let rec = &store.images[0];
    assert_eq!(rec.id, "i1");
    assert_eq!(rec.album_id, "a1");
    assert_eq!(rec.filename, "photo.jpg");
    assert_eq!(rec.checksum.as_deref(), Some("sum1"));
    assert_eq!(rec.original_path.as_deref(), Some("./data/original/a1/photo.jpg"));
    assert_eq!(rec.file_size, Some(1000));
    assert_eq!(rec.synced_at, Some(11));
    assert!(rec.avif_path.is_none());
    assert!(rec.thumbnail_path.is_none());
    assert!(rec.converted_at.is_none());
}

#[test]
fn image_upsert_preserves_conversion_fields() {
    let mut store = store_with_one_image();
    SyncedImage::mark_converted(&mut store, "i1", "a.avif", "t.avif", 12);
    SyncedImage::upsert(
        &mut store,
        "i1",
        "a1",
        "photo.jpg",
        Some("sum2"),
        Some("./data/original/a1/photo.jpg"),
        Some(1200),
        13,
    );
    assert_eq!(store.images.len(), 1);
    let rec = &store.images[0];
    assert_eq!(rec.checksum.as_deref(), Some("sum2"));
    assert_eq!(rec.synced_at, Some(13));
    assert_eq!(rec.avif_path.as_deref(), Some("a.avif"), "conversion state must survive a re-sync");
    assert_eq!(rec.thumbnail_path.as_deref(), Some("t.avif"));
    assert_eq!(rec.converted_at, Some(12));
}

#[test]
fn mark_converted_sets_both_paths_and_time() {
    let mut store = store_with_one_image();
    SyncedImage::mark_converted(&mut store, "i1", "x.avif", "x_thumb.avif", 42);
    let rec = SyncedImage::get_by_id(&store, "i1").unwrap();
    assert_eq!(rec.avif_path.as_deref(), Some("x.avif"));
    assert_eq!(rec.thumbnail_path.as_deref(), Some("x_thumb.avif"));
    assert_eq!(rec.converted_at, Some(42));
}

#[test]
fn mark_converted_of_unknown_id_changes_nothing() {
    let mut store = store_with_one_image();
    SyncedImage::mark_converted(&mut store, "ghost", "x.avif", "y.avif", 42);
    assert_eq!(store.images.len(), 1);
    assert!(store.images[0].avif_path.is_none());
}

#[test]
fn get_by_album_filters_by_album() {
    let mut store = store_with_one_image();
    SyncedImage::upsert(&mut store, "i2", "a2", "other.jpg", None, Some("p2"), None, 11);
    let a1 = SyncedImage::get_by_album(&store, "a1");
    assert_eq!(a1.len(), 1);
    assert_eq!(a1[0].id, "i1");
    let a2 = SyncedImage::get_by_album(&store, "a2");
    assert_eq!(a2.len(), 1);
    assert_eq!(a2[0].id, "i2");
    assert!(SyncedImage::get_by_album(&store, "a3").is_empty());
}

fn converted_album() -> StateStore {
    let mut store = StateStore::new();
    for k in 0..5u8 {
        let id = format!("i{k}");
        SyncedImage::upsert(&mut store, &id, "a1", &format!("f{k}.jpg"), None, Some("p"), None, 1);
        if k < 3 {
            SyncedImage::mark_converted(&mut store, &id, &format!("{id}.avif"), &format!("{id}_t.avif"), 2);
        }
    }
    store
}

#[test]
fn pagination_over_converted_records() {
    let store = converted_album();
    let page = SyncedImage::get_by_album_paginated(&store, "a1", 1, 2);
    assert_eq!(page.len(), 2);
    assert_eq!(page[0].id, "i1");
    assert_eq!(page[1].id, "i2");
    let tail = SyncedImage::get_by_album_paginated(&store, "a1", 2, 10);
    assert_eq!(tail.len(), 1);
    assert_eq!(tail[0].id, "i2");
    assert!(SyncedImage::get_by_album_paginated(&store, "a1", 3, 2).is_empty());
    assert!(SyncedImage::get_by_album_paginated(&store, "a1", 0, 0).is_empty());
}

#[test]
fn count_by_album_counts_converted_only() {
    let store = converted_album();
    assert_eq!(SyncedImage::count_by_album(&store, "a1"), 3);
    assert_eq!(SyncedImage::count_by_album(&store, "zz"), 0);
}

#[test]
fn unconverted_includes_thumbnailless_records() {
    let mut store = StateStore::new();
    // converted before thumbnails existed: converted_at set, thumbnail missing
    SyncedImage::upsert(&mut store, "old", "a1", "old.jpg", None, Some("p_old"), None, 1);
    SyncedImage::mark_converted(&mut store, "old", "old.avif", "old_t.avif", 2);
    store.images[0].thumbnail_path = None;
    // fully converted
    SyncedImage::upsert(&mut store, "done", "a1", "done.jpg", None, Some("p_done"), None, 1);
    SyncedImage::mark_converted(&mut store, "done", "done.avif", "done_t.avif", 2);
    // never converted
    SyncedImage::upsert(&mut store, "new", "a1", "new.jpg", None, Some("p_new"), None, 1);
    // not yet downloaded
    SyncedImage::upsert(&mut store, "remote", "a1", "r.jpg", None, None, None, 1);

    let pending = SyncedImage::get_unconverted(&store);
    let ids: Vec<&str> = pending.iter().map(|r| r.id.as_str()).collect();
    assert_eq!(ids, vec!["old", "new"]);
}

#[test]
fn synced_ids_and_delete() {
    let mut store = store_with_one_image();
    SyncedImage::upsert(&mut store, "i2", "a1", "b.jpg", None, Some("p2"), None, 1);
    assert_eq!(SyncedImage::get_all_synced_ids(&store), vec!["i1".to_string(), "i2".to_string()]);
    SyncedImage::delete_by_id(&mut store, "i1");
    assert_eq!(SyncedImage::get_all_synced_ids(&store), vec!["i2".to_string()]);
    SyncedImage::delete_by_id(&mut store, "ghost");
    assert_eq!(store.images.len(), 1);
}

#[test]
fn clear_all_conversions_resets_every_record() {
    let mut store = converted_album();
    let cleared = SyncedImage::clear_all_conversions(&mut store);
    assert_eq!(cleared, 5);
    for rec in &store.images {
        assert!(rec.avif_path.is_none());
        assert!(rec.thumbnail_path.is_none());
        assert!(rec.converted_at.is_none());
        assert!(rec.original_path.is_some(), "sync fields must survive a reindex");
    }
    assert_eq!(SyncedImage::get_unconverted(&store).len(), 5);
}

#[test]
fn well_formedness_check_spots_duplicate_ids() {
    let mut store = store_with_one_image();
    assert!(store.check_wf());
    let dup = store.images[0].clone_rec();
    store.images.push(dup);
    assert!(!store.check_wf(), "a store loaded from outside may not repeat an id");
}

#[test]
fn disk_subtree_removal_matches_exact_prefix() {
    let mut disk = Disk::new();
    disk.write("avif/a1/x.avif");
    disk.write("avif/a1/x_thumb.avif");
    disk.write("avif2/y.avif");
    disk.write("original/a1/z.jpg");
    disk.remove_subtree("avif/");
    assert!(!disk.file_exists("avif/a1/x.avif"));
    assert!(!disk.file_exists("avif/a1/x_thumb.avif"));
    assert!(disk.file_exists("avif2/y.avif"), "a sibling directory sharing letters stays");
    assert!(disk.file_exists("original/a1/z.jpg"));
}

#[test]
fn disk_presence_write_remove() {
    let mut disk = Disk::new();
    assert!(!disk.file_exists("a/b"));
    disk.write("a/b");
    assert!(disk.file_exists("a/b"));
    disk.write("a/b");
    assert_eq!(disk.files.len(), 1, "writing an existing path must not duplicate it");
    disk.remove("a/b");
    assert!(!disk.file_exists("a/b"));
    disk.remove("a/b");
    assert!(disk.files.is_empty());
}
