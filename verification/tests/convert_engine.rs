use avif_generator::config::{
    AuthConfig, Config, ImageConfig, ImmichConfig, ServerConfig, StorageConfig, SyncConfig,
};
use avif_generator::convert::{
    avif_dest_path, do_conversion, next_quality, resize_image, resize_plan, simulate_backoff,
    thumb_dest_path, AvifConverter, DecodedImage, WorkOutcome,
};
use avif_generator::db::{StateStore, SyncedImage};
use avif_generator::disk::Disk;
use avif_generator::sync::{SyncService, TransferOutcome};
use avif_generator::types::{AlbumResponse, AssetResponse, AssetType};

fn config() -> Config {
    Config {
        immich: ImmichConfig {
            url: "http://immich.local".to_string(),
            auth: AuthConfig::ApiKey { api_key: "SECRET-REDACTED".to_string() },
        },
        storage: StorageConfig {
            base_path: "./data".to_string(),
            original_dir: "original".to_string(),
            avif_dir: "avif".to_string(),
            db_name: "db.sqlite".to_string(),
        },
        server: ServerConfig { host: "127.0.0.1".to_string(), port: 3000 },
        sync: SyncConfig { delete_removed: false, parallel_downloads: 4, parallel_conversions: 2 },
        image: ImageConfig::default(),
    }
}

const MB: u64 = 1024 * 1024;

#[test]
fn quality_steps_down_and_clamps() {
    assert_eq!(next_quality(80, 30), 75);
    assert_eq!(next_quality(34, 30), 30);
    assert_eq!(next_quality(30, 30), 30);
    assert_eq!(next_quality(3, 1), 1);
}

#[test]
fn backoff_accepts_first_size_within_budget() {
    // encode at 80 yields 12MB against a 10MB limit: retry at 75, 70, ...
    let sizes = vec![
        12 * MB,
        11 * MB + 512 * 1024,
        11 * MB,
        10 * MB + 200 * 1024,
        9 * MB + 900 * 1024,
    ];
    let (quality, attempt) = simulate_backoff(&sizes, 80, 30, 10 * MB);
    assert_eq!(attempt, 4, "the fifth attempt is the first within the budget");
    assert_eq!(quality, 60, "80 stepped down four times");
}

#[test]
fn backoff_accepts_immediately_within_budget() {
    let sizes = vec![8 * MB];
    assert_eq!(simulate_backoff(&sizes, 80, 30, 10 * MB), (80, 0));
}

#[test]
fn backoff_bottoms_out_at_min_quality() {
    // nothing fits: the floor's output is accepted anyway
    let sizes: Vec<u64> = (0..11).map(|_| 12 * MB).collect();
    let (quality, attempt) = simulate_backoff(&sizes, 80, 30, 10 * MB);
    assert_eq!(quality, 30, "the floor is accepted exactly at min quality");
    assert_eq!(attempt, 10, "(80 - 30) / 5 steps were taken");
}

#[test]
fn backoff_clamps_last_step_to_floor() {
    let sizes: Vec<u64> = (0..3).map(|_| 12 * MB).collect();
    let (quality, attempt) = simulate_backoff(&sizes, 37, 30, 10 * MB);
    assert_eq!(attempt, 2);
    assert_eq!(quality, 30, "37 -> 32 -> 30, clamped");
}

#[test]
fn resize_keeps_small_images() {
    assert_eq!(resize_plan(200, 100, 2000), (200, 100));
    assert_eq!(resize_plan(2000, 100, 2000), (2000, 100));
}

#[test]
fn resize_scales_height_proportionally_rounded() {
    assert_eq!(resize_plan(4000, 3000, 2000), (2000, 1500));
    // round(1000 * 2000 / 3000) = round(666.67) = 667
    assert_eq!(resize_plan(3000, 1000, 2000), (2000, 667));
    // round(999 * 1000 / 1998) = round(500.0) with half rounded up
    assert_eq!(resize_plan(1998, 999, 1000), (1000, 500));
}

#[test]
fn derivative_destination_convention() {
    assert_eq!(avif_dest_path("./data/avif", "A1", "I1"), "./data/avif/A1/I1.avif");
    assert_eq!(thumb_dest_path("./data/avif", "A1", "I1"), "./data/avif/A1/I1_thumb.avif");
}

#[test]
fn resize_image_scales_down_and_copies_small_images() {
    let buf = image::DynamicImage::ImageRgba8(image::RgbaImage::from_pixel(
        100,
        50,
        image::Rgba([1, 2, 3, 255]),
    ));
    let img = DecodedImage { img: buf, width: 100, height: 50 };
    let small = resize_image(&img, 200);
    assert_eq!((small.width, small.height), (100, 50), "a narrow image is copied unchanged");
    let scaled = resize_image(&img, 10);
    assert_eq!((scaled.width, scaled.height), (10, 5), "a wide image is scaled to the bound");
}

fn png_bytes(width: u32, height: u32) -> Vec<u8> {
    let img = image::RgbaImage::from_fn(width, height, |x, y| {
        image::Rgba([(x % 256) as u8, (y % 256) as u8, 120, 255])
    });
    let mut bytes: Vec<u8> = Vec::new();
    let mut cursor = std::io::Cursor::new(&mut bytes);
    img.write_to(&mut cursor, image::ImageFormat::Png).unwrap();
    bytes
}

#[test]
fn conversion_produces_both_derivatives() {
    let cfg = ImageConfig {
        quality: 50,
        max_width: 2000,
        thumbnail_width: 32,
        max_file_size: 10 * MB,
        min_quality: 30,
    };
    let original = png_bytes(64, 32);
    let pair = do_conversion(&original, &cfg).unwrap();
    assert!(!pair.avif.is_empty());
    assert!(!pair.thumbnail.is_empty());
    assert_eq!(pair.avif_quality, 50, "a small image fits the budget at the starting quality");
    assert!(pair.avif.len() as u64 <= cfg.max_file_size);
    assert!(pair.thumbnail.len() as u64 <= cfg.max_file_size);
}

#[test]
fn conversion_bottoms_out_on_impossible_budget() {
    let cfg = ImageConfig {
        quality: 40,
        max_width: 2000,
        thumbnail_width: 32,
        max_file_size: 1,
        min_quality: 30,
    };
    let original = png_bytes(64, 32);
    let pair = do_conversion(&original, &cfg).unwrap();
    assert_eq!(pair.avif_quality, 30, "an unreachable budget is written at the floor quality");
    assert_eq!(pair.thumbnail_quality, 30);
    assert!(pair.avif.len() > 1);
}

#[test]
fn conversion_rejects_garbage_bytes() {
    let cfg = ImageConfig::default();
    assert!(do_conversion(&[0u8, 1, 2, 3], &cfg).is_err());
}

fn pending_record(store: &mut StateStore, id: &str) {
    SyncedImage::upsert(
        store,
        id,
        "A1",
        &format!("{id}.jpg"),
        None,
        Some(&format!("./data/original/A1/{id}.jpg")),
        None,
        1,
    );
}

#[test]
fn convert_all_marks_and_counts() {
    let converter = AvifConverter::new(config());
    let mut store = StateStore::new();
    let mut disk = Disk::new();
    pending_record(&mut store, "I1");
    pending_record(&mut store, "I2");
    disk.write("./data/original/A1/I1.jpg");
    disk.write("./data/original/A1/I2.jpg");

    let outcomes = vec![WorkOutcome::Encoded, WorkOutcome::Failed];
    let r = converter.convert_all(&mut store, &mut disk, &outcomes, 50);
    assert_eq!(r.converted, 1);
    assert_eq!(r.failed, 1);
    assert_eq!(r.skipped, 0);

    let done = SyncedImage::get_by_id(&store, "I1").unwrap();
    assert_eq!(done.avif_path.as_deref(), Some("./data/avif/A1/I1.avif"));
    assert_eq!(done.thumbnail_path.as_deref(), Some("./data/avif/A1/I1_thumb.avif"));
    assert_eq!(done.converted_at, Some(50));
    assert!(disk.file_exists("./data/avif/A1/I1.avif"));
    assert!(disk.file_exists("./data/avif/A1/I1_thumb.avif"));

    let failed = SyncedImage::get_by_id(&store, "I2").unwrap();
    assert!(failed.avif_path.is_none(), "a failed asset stays pending for retry");
}

#[test]
fn convert_all_skips_missing_originals() {
    let converter = AvifConverter::new(config());
    let mut store = StateStore::new();
    let mut disk = Disk::new();
    pending_record(&mut store, "I1");
    // the original file is not on disk
    let outcomes = vec![WorkOutcome::Encoded];
    let r = converter.convert_all(&mut store, &mut disk, &outcomes, 50);
    assert_eq!(r.skipped, 1);
    assert_eq!(r.converted, 0);
    assert!(SyncedImage::get_by_id(&store, "I1").unwrap().avif_path.is_none());
}

#[test]
fn convert_all_repairs_lagged_records_without_encoding() {
    let converter = AvifConverter::new(config());
    let mut store = StateStore::new();
    let mut disk = Disk::new();
    pending_record(&mut store, "I1");
    disk.write("./data/original/A1/I1.jpg");
    disk.write("./data/avif/A1/I1.avif");
    disk.write("./data/avif/A1/I1_thumb.avif");

    // the outcome is irrelevant: no encoding is consulted on the repair path
    let outcomes = vec![WorkOutcome::Failed];
    let r = converter.convert_all(&mut store, &mut disk, &outcomes, 60);
    assert_eq!(r.skipped, 1, "both files on disk: repaired, not converted");
    assert_eq!(r.converted, 0);
    assert_eq!(r.failed, 0);
    let rec = SyncedImage::get_by_id(&store, "I1").unwrap();
    assert_eq!(rec.avif_path.as_deref(), Some("./data/avif/A1/I1.avif"));
    assert_eq!(rec.converted_at, Some(60));
}

#[test]
fn reindex_discards_derivatives_and_reconverts() {
    let converter = AvifConverter::new(config());
    let mut store = StateStore::new();
    let mut disk = Disk::new();
    for id in ["I1", "I2"] {
        pending_record(&mut store, id);
        disk.write(&format!("./data/original/A1/{id}.jpg"));
    }
    let first = converter.convert_all(&mut store, &mut disk, &vec![WorkOutcome::Encoded, WorkOutcome::Encoded], 10);
    assert_eq!(first.converted, 2);

    let r = converter.reindex(&mut store, &mut disk, &vec![WorkOutcome::Encoded, WorkOutcome::Failed], 20);
    assert_eq!(r.converted, 1);
    assert_eq!(r.failed, 1);
    assert_eq!(r.skipped, 0, "the pruned subtree leaves no repair candidates");

    let redone = SyncedImage::get_by_id(&store, "I1").unwrap();
    assert_eq!(redone.converted_at, Some(20), "the record was reconverted, not kept");
    assert!(disk.file_exists("./data/avif/A1/I1.avif"));
    let failed = SyncedImage::get_by_id(&store, "I2").unwrap();
    assert!(failed.avif_path.is_none());
    assert!(!disk.file_exists("./data/avif/A1/I2.avif"), "its old derivative is gone");
    assert!(disk.file_exists("./data/original/A1/I2.jpg"), "originals are never touched");
}

#[test]
fn scenario_sync_then_convert_twice() {
    let service = SyncService::new(config());
    let converter = AvifConverter::new(config());
    let mut store = StateStore::new();
    let mut disk = Disk::new();

    let album = AlbumResponse {
        id: "A1".to_string(),
        album_name: "First".to_string(),
        asset_count: 1,
        assets: vec![AssetResponse {
            id: "I1".to_string(),
            original_file_name: "pic1.jpg".to_string(),
            checksum: "sum1".to_string(),
            asset_type: AssetType::Image,
            original_mime_type: None,
            file_size: Some(100),
        }],
    };

    let s = service.sync_album(&mut store, &mut disk, &album, &vec![TransferOutcome::Fetched], 10);
    assert_eq!(s.downloaded, 1);
    let rec = SyncedImage::get_by_id(&store, "I1").unwrap();
    assert_eq!(rec.original_path.as_deref(), Some("./data/original/A1/pic1.jpg"));
    assert!(rec.avif_path.is_none());

    let c1 = converter.convert_all(&mut store, &mut disk, &vec![WorkOutcome::Encoded], 20);
    assert_eq!(c1.converted, 1);
    assert!(disk.file_exists("./data/avif/A1/I1.avif"));
    assert!(disk.file_exists("./data/avif/A1/I1_thumb.avif"));
    let rec = SyncedImage::get_by_id(&store, "I1").unwrap();
    assert_eq!(rec.avif_path.as_deref(), Some("./data/avif/A1/I1.avif"));
    assert_eq!(rec.thumbnail_path.as_deref(), Some("./data/avif/A1/I1_thumb.avif"));
    assert_eq!(rec.converted_at, Some(20));

    // a second pass finds no record pending: nothing is converted again
    let c2 = converter.convert_all(&mut store, &mut disk, &Vec::new(), 30);
    assert_eq!(c2.converted, 0);
    assert_eq!(c2.failed, 0);
    assert_eq!(c2.skipped, 0);

    // a record that lagged behind the disk is repaired as skipped instead
    avif_generator::db::SyncedImage::clear_all_conversions(&mut store);
    let c3 = converter.convert_all(&mut store, &mut disk, &vec![WorkOutcome::Failed], 40);
    assert_eq!(c3.skipped, 1);
    assert_eq!(c3.converted, 0);
}
