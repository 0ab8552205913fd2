use avif_generator::config::{
    AuthConfig, Config, ImageConfig, ImmichConfig, ServerConfig, StorageConfig, SyncConfig,
};
use avif_generator::db::{StateStore, SyncedImage};
use avif_generator::disk::Disk;
use avif_generator::sync::{original_dest_path, plan_album_sync, AlbumSync, SyncService, TransferOutcome};
use avif_generator::types::{AlbumResponse, AssetResponse, AssetType};

fn config(delete_removed: bool) -> Config {
    Config {
        immich: ImmichConfig {
            url: "http://immich.local".to_string(),
            auth: AuthConfig::ApiKey { api_key: "SECRET-REDACTED".to_string() },
        },
        storage: StorageConfig {
            base_path: "./data".to_string(),
            original_dir: "original".to_string(),
            avif_dir: "avif".to_string(),
            db_name: "db.sqlite".to_string(),
        },
        server: ServerConfig { host: "127.0.0.1".to_string(), port: 3000 },
        sync: SyncConfig { delete_removed, parallel_downloads: 4, parallel_conversions: 2 },
        image: ImageConfig::default(),
    }
}

fn asset(id: &str, filename: &str, checksum: &str, kind: AssetType) -> AssetResponse {
    AssetResponse {
        id: id.to_string(),
        original_file_name: filename.to_string(),
        checksum: checksum.to_string(),
        asset_type: kind,
        original_mime_type: None,
        file_size: Some(1234),
    }
}

fn album_a1() -> AlbumResponse {
    AlbumResponse {
        id: "A1".to_string(),
        album_name: "First".to_string(),
        asset_count: 2,
        assets: vec![
            asset("I1", "pic1.jpg", "sum1", AssetType::Image),
            asset("V1", "clip.mp4", "sumv", AssetType::Video),
        ],
    }
}

#[test]
fn original_destination_convention() {
    assert_eq!(original_dest_path("./data/original", "A1", "pic1.jpg"), "./data/original/A1/pic1.jpg");
}

#[test]
fn plan_downloads_unknown_images_only() {
    let store = StateStore::new();
    let album = album_a1();
    let plan = plan_album_sync(&store, &album.assets);
    assert_eq!(plan.len(), 1, "the video asset must be excluded");
    assert_eq!(plan[0].id, "I1");
}

#[test]
fn plan_skips_known_unchanged_assets() {
    let mut store = StateStore::new();
    SyncedImage::upsert(&mut store, "I1", "A1", "pic1.jpg", Some("sum1"), Some("p"), None, 1);
    let album = album_a1();
    let plan = plan_album_sync(&store, &album.assets);
    assert!(plan.is_empty());
}

#[test]
fn plan_redownloads_on_checksum_change() {
    let mut store = StateStore::new();
    SyncedImage::upsert(&mut store, "I1", "A1", "pic1.jpg", Some("stale-sum"), Some("p"), None, 1);
    let album = album_a1();
    let plan = plan_album_sync(&store, &album.assets);
    assert_eq!(plan.len(), 1);
    assert_eq!(plan[0].id, "I1");
}

#[test]
fn needs_update_compares_checksums() {
    let service = SyncService::new(config(false));
    assert!(!service.needs_update(&Some("sum".to_string()), "sum"));
    assert!(service.needs_update(&Some("other".to_string()), "sum"));
    assert!(service.needs_update(&None, "sum"));
}

#[test]
fn first_sync_downloads_and_records() {
    let service = SyncService::new(config(false));
    let mut store = StateStore::new();
    let mut disk = Disk::new();
    let album = album_a1();
    let r = service.sync_album(&mut store, &mut disk, &album, &vec![TransferOutcome::Fetched], 100);
    assert_eq!(r.downloaded, 1);
    assert_eq!(r.skipped, 0);
    assert_eq!(r.failed, 0);
    assert_eq!(r.removed, 0);
    assert!(disk.file_exists("./data/original/A1/pic1.jpg"));
    assert_eq!(store.albums.len(), 1);
    assert_eq!(store.albums[0].name, "First");
    let rec = SyncedImage::get_by_id(&store, "I1").unwrap();
    assert_eq!(rec.album_id, "A1");
    assert_eq!(rec.original_path.as_deref(), Some("./data/original/A1/pic1.jpg"));
    assert_eq!(rec.checksum.as_deref(), Some("sum1"));
    assert!(rec.avif_path.is_none());
}

#[test]
fn second_sync_downloads_nothing() {
    let service = SyncService::new(config(false));
    let mut store = StateStore::new();
    let mut disk = Disk::new();
    let album = album_a1();
    service.sync_album(&mut store, &mut disk, &album, &vec![TransferOutcome::Fetched], 100);
    let images_before = store.images.len();
    let r2 = service.sync_album(&mut store, &mut disk, &album, &Vec::new(), 200);
    assert_eq!(r2.downloaded, 0, "an unchanged album must not be downloaded again");
    assert_eq!(store.images.len(), images_before, "no duplicate records may arise");
}

#[test]
fn existing_file_is_skipped_without_record() {
    let service = SyncService::new(config(false));
    let mut store = StateStore::new();
    let mut disk = Disk::new();
    disk.write("./data/original/A1/pic1.jpg");
    let album = album_a1();
    let r = service.sync_album(&mut store, &mut disk, &album, &vec![TransferOutcome::Fetched], 100);
    assert_eq!(r.downloaded, 0);
    assert_eq!(r.skipped, 1, "a file already on disk is idempotent recovery, not a download");
    assert!(SyncedImage::get_by_id(&store, "I1").is_none());
}

#[test]
fn removal_deletes_stale_records_and_files() {
    let service = SyncService::new(config(true));
    let mut store = StateStore::new();
    let mut disk = Disk::new();
    SyncedImage::upsert(&mut store, "GONE", "A1", "gone.jpg", None, Some("orig/gone.jpg"), None, 1);
    SyncedImage::mark_converted(&mut store, "GONE", "avif/gone.avif", "avif/gone_t.avif", 2);
    SyncedImage::upsert(&mut store, "OTHER", "A2", "other.jpg", None, Some("orig/other.jpg"), None, 1);
    disk.write("orig/gone.jpg");
    disk.write("avif/gone.avif");
    disk.write("avif/gone_t.avif");
    disk.write("orig/other.jpg");

    let album = album_a1();
    let r = service.sync_album(&mut store, &mut disk, &album, &vec![TransferOutcome::Fetched], 100);
    assert_eq!(r.removed, 1);
    assert!(SyncedImage::get_by_id(&store, "GONE").is_none());
    assert!(!disk.file_exists("orig/gone.jpg"));
    assert!(!disk.file_exists("avif/gone.avif"));
    assert!(!disk.file_exists("avif/gone_t.avif"));
    // records of other albums are untouched
    assert!(SyncedImage::get_by_id(&store, "OTHER").is_some());
    assert!(disk.file_exists("orig/other.jpg"));
}

#[test]
fn removal_disabled_keeps_stale_records() {
    let service = SyncService::new(config(false));
    let mut store = StateStore::new();
    let mut disk = Disk::new();
    SyncedImage::upsert(&mut store, "GONE", "A1", "gone.jpg", None, Some("orig/gone.jpg"), None, 1);
    let album = album_a1();
    let r = service.sync_album(&mut store, &mut disk, &album, &vec![TransferOutcome::Fetched], 100);
    assert_eq!(r.removed, 0);
    assert!(SyncedImage::get_by_id(&store, "GONE").is_some());
}

#[test]
fn second_sync_downloads_nothing_with_removal_enabled() {
    let service = SyncService::new(config(true));
    let mut store = StateStore::new();
    let mut disk = Disk::new();
    // a stale record of this album whose files are its own
    SyncedImage::upsert(&mut store, "GONE", "A1", "gone.jpg", None, Some("orig/gone.jpg"), None, 1);
    disk.write("orig/gone.jpg");
    let album = album_a1();
    let r1 = service.sync_album(&mut store, &mut disk, &album, &vec![TransferOutcome::Fetched], 100);
    assert_eq!(r1.downloaded, 1);
    assert_eq!(r1.removed, 1);
    let r2 = service.sync_album(&mut store, &mut disk, &album, &Vec::new(), 200);
    assert_eq!(r2.downloaded, 0);
    assert_eq!(r2.removed, 0);
}

#[test]
fn removal_of_a_colliding_path_forces_a_redownload() {
    // A record slated for removal can store the very path a listed asset
    // downloads to: two assets of the album shared a filename over time.
    // The first pass then skips the asset (its file is present), removes the
    // stale record together with that file, and only the second pass
    // downloads it — idempotence needs removal and such collisions apart.
    let service = SyncService::new(config(true));
    let mut store = StateStore::new();
    let mut disk = Disk::new();
    SyncedImage::upsert(
        &mut store,
        "OLD",
        "A1",
        "pic1.jpg",
        None,
        Some("./data/original/A1/pic1.jpg"),
        None,
        1,
    );
    disk.write("./data/original/A1/pic1.jpg");
    let album = album_a1();
    let r1 = service.sync_album(&mut store, &mut disk, &album, &vec![TransferOutcome::Fetched], 100);
    assert_eq!(r1.downloaded, 0, "the destination file already existed");
    assert_eq!(r1.skipped, 1);
    assert_eq!(r1.removed, 1, "the stale record leaves, taking its file along");
    assert!(!disk.file_exists("./data/original/A1/pic1.jpg"));
    let r2 = service.sync_album(&mut store, &mut disk, &album, &vec![TransferOutcome::Fetched], 200);
    assert_eq!(r2.downloaded, 1, "the shared destination has to be fetched again");
}

#[test]
fn sync_all_aggregates_and_isolates_failures() {
    let service = SyncService::new(config(false));
    let mut store = StateStore::new();
    let mut disk = Disk::new();
    let album2 = AlbumResponse {
        id: "A2".to_string(),
        album_name: "Second".to_string(),
        asset_count: 1,
        assets: vec![asset("I2", "pic2.jpg", "sum2", AssetType::Image)],
    };
    let fetched = vec![
        Some(AlbumSync { album: album_a1(), transfers: vec![TransferOutcome::Fetched] }),
        None,
        Some(AlbumSync { album: album2, transfers: vec![TransferOutcome::Failed] }),
    ];
    let r = service.sync_all(&mut store, &mut disk, &fetched, 100);
    assert_eq!(r.downloaded, 1);
    assert_eq!(r.failed, 2, "one unfetchable album and one failed transfer both count");
    assert_eq!(r.removed, 0);
    assert_eq!(store.albums.len(), 2);
    assert!(SyncedImage::get_by_id(&store, "I1").is_some());
    assert!(SyncedImage::get_by_id(&store, "I2").is_none(), "a failed transfer leaves no record");
}

#[test]
fn failed_transfer_is_counted_and_retried() {
    let service = SyncService::new(config(false));
    let mut store = StateStore::new();
    let mut disk = Disk::new();
    let album = album_a1();
    let r1 = service.sync_album(&mut store, &mut disk, &album, &vec![TransferOutcome::Failed], 100);
    assert_eq!(r1.downloaded, 0);
    assert_eq!(r1.failed, 1);
    assert!(SyncedImage::get_by_id(&store, "I1").is_none(), "a failed transfer leaves no record");
    assert!(!disk.file_exists("./data/original/A1/pic1.jpg"), "and no file");
    // the asset stays eligible: the next pass fetches it
    let r2 = service.sync_album(&mut store, &mut disk, &album, &vec![TransferOutcome::Fetched], 200);
    assert_eq!(r2.downloaded, 1);
    assert_eq!(r2.failed, 0);
    assert!(SyncedImage::get_by_id(&store, "I1").is_some());
}
