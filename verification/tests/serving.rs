use avif_generator::db::{Album, StateStore, SyncedImage};
use avif_generator::disk::Disk;
use avif_generator::serve::{
    get_album, get_image_metadata, image_url, list_albums, serve_image, NotFound,
};

fn sample_store() -> StateStore {
    let mut store = StateStore::new();
    Album::upsert(&mut store, "a1", "Holidays", 2, 10);
    Album::upsert(&mut store, "a2", "Empty", 0, 10);
    SyncedImage::upsert(&mut store, "i1", "a1", "one.jpg", None, Some("orig/one.jpg"), Some(111), 11);
    SyncedImage::mark_converted(&mut store, "i1", "avif/a1/i1.avif", "avif/a1/i1_thumb.avif", 12);
    SyncedImage::upsert(&mut store, "i2", "a1", "two.jpg", None, Some("orig/two.jpg"), Some(222), 11);
    store
}

#[test]
fn album_listing_reads_counts_sorted_by_name() {
    let store = sample_store();
    let infos = list_albums(&store);
    assert_eq!(infos.len(), 2);
    assert_eq!(infos[0].id, "a2", "names sort the listing: Empty before Holidays");
    assert_eq!(infos[0].name, "Empty");
    assert_eq!(infos[0].image_count, 0);
    assert_eq!(infos[1].id, "a1");
    assert_eq!(infos[1].name, "Holidays");
    assert_eq!(infos[1].image_count, 2);
}

#[test]
fn album_listing_is_sorted_by_filename() {
    let mut store = StateStore::new();
    Album::upsert(&mut store, "a1", "Holidays", 2, 10);
    SyncedImage::upsert(&mut store, "z9", "a1", "zebra.jpg", None, Some("o/z"), None, 11);
    SyncedImage::mark_converted(&mut store, "z9", "avif/z.avif", "avif/z_t.avif", 12);
    SyncedImage::upsert(&mut store, "a0", "a1", "aardvark.jpg", None, Some("o/a"), None, 11);
    SyncedImage::mark_converted(&mut store, "a0", "avif/a.avif", "avif/a_t.avif", 12);
    let resp = get_album(&store, "a1").unwrap();
    let files: Vec<&str> = resp.images.iter().map(|i| i.filename.as_str()).collect();
    assert_eq!(files, vec!["aardvark.jpg", "zebra.jpg"]);
}

#[test]
fn image_addresses() {
    assert_eq!(image_url("i1"), "/images/i1");
}

#[test]
fn album_listing_serves_converted_images_only() {
    let store = sample_store();
    let resp = get_album(&store, "a1").unwrap();
    assert_eq!(resp.album_id, "a1");
    assert_eq!(resp.album_name, "Holidays");
    assert_eq!(resp.images.len(), 1, "only the converted image is listed");
    assert_eq!(resp.images[0].id, "i1");
    assert_eq!(resp.images[0].filename, "one.jpg");
    assert_eq!(resp.images[0].url, "/images/i1");
}

#[test]
fn unknown_album_is_not_found() {
    let store = sample_store();
    assert_eq!(get_album(&store, "zz").unwrap_err(), NotFound::UnknownAlbum);
}

#[test]
fn serve_image_distinguishes_not_found_conditions() {
    let store = sample_store();
    let mut disk = Disk::new();
    assert_eq!(serve_image(&store, &disk, "nope").unwrap_err(), NotFound::UnknownImage);
    assert_eq!(serve_image(&store, &disk, "i2").unwrap_err(), NotFound::NotConverted);
    assert_eq!(serve_image(&store, &disk, "i1").unwrap_err(), NotFound::FileMissing);
    disk.write("avif/a1/i1.avif");
    assert_eq!(serve_image(&store, &disk, "i1").unwrap(), "avif/a1/i1.avif");
}

#[test]
fn metadata_answer_carries_record_fields() {
    let store = sample_store();
    let meta = get_image_metadata(&store, "i1").unwrap();
    assert_eq!(meta.id, "i1");
    assert_eq!(meta.filename, "one.jpg");
    assert_eq!(meta.album_id, "a1");
    assert_eq!(meta.file_size, Some(111));
    assert_eq!(meta.synced_at, Some(11));
    assert_eq!(meta.converted_at, Some(12));
    assert_eq!(get_image_metadata(&store, "zz").unwrap_err(), NotFound::UnknownImage);
}

#[test]
fn not_found_messages() {
    assert_eq!(NotFound::UnknownAlbum.message(), "Album not found");
    assert_eq!(NotFound::UnknownImage.message(), "Image not found");
    assert_eq!(NotFound::NotConverted.message(), "AVIF not yet converted");
    assert_eq!(NotFound::FileMissing.message(), "AVIF file not found on disk");
}
