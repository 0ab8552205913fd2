use avif_generator::config::{
    default_avif_dir, default_db_name, default_host, default_max_file_size, default_max_width,
    default_min_quality, default_original_dir, default_parallel_conversions,
    default_parallel_downloads, default_port, default_quality, default_thumbnail_width, join_path,
    AuthConfig, Config, ImageConfig, ImmichConfig, ServerConfig, StorageConfig, SyncConfig,
};
use avif_generator::parse::{
    parse_bool_ascii, parse_u16_ascii, parse_u32_ascii, parse_u64_ascii, parse_usize_ascii,
};

fn sample_config() -> Config {
    Config {
        immich: ImmichConfig {
            url: "http://immich.local".to_string(),
            auth: AuthConfig::ApiKey { api_key: "SECRET-REDACTED".to_string() },
        },
        storage: StorageConfig {
            base_path: "./data".to_string(),
            original_dir: default_original_dir(),
            avif_dir: default_avif_dir(),
            db_name: default_db_name(),
        },
        server: ServerConfig { host: default_host(), port: default_port() },
        sync: SyncConfig {
            delete_removed: false,
            parallel_downloads: default_parallel_downloads(),
            parallel_conversions: default_parallel_conversions(),
        },
        image: ImageConfig::default(),
    }
}

#[test]
fn parse_u64_plain_digits() {
    assert_eq!(parse_u64_ascii(b"123"), Some(123));
    assert_eq!(parse_u64_ascii(b"0"), Some(0));
    assert_eq!(parse_u64_ascii(b"007"), Some(7));
}

#[test]
fn parse_u64_plus_sign() {
    assert_eq!(parse_u64_ascii(b"+42"), Some(42));
    assert_eq!(parse_u64_ascii(b"+"), None);
}

#[test]
fn parse_u64_rejects_junk() {
    assert_eq!(parse_u64_ascii(b""), None);
    assert_eq!(parse_u64_ascii(b"12a"), None);
    assert_eq!(parse_u64_ascii(b"-3"), None);
    assert_eq!(parse_u64_ascii(b" 12"), None);
}

#[test]
fn parse_u64_overflow_boundary() {
    assert_eq!(parse_u64_ascii(b"18446744073709551615"), Some(u64::MAX));
    assert_eq!(parse_u64_ascii(b"18446744073709551616"), None);
    assert_eq!(parse_u64_ascii(b"99999999999999999999999999"), None);
}

#[test]
fn parse_matches_std_parse() {
    for s in ["0", "1", "3000", "+17", "65535", "65536", "4294967295", "4294967296", "x", ""] {
        assert_eq!(parse_u64_ascii(s.as_bytes()), s.parse::<u64>().ok(), "u64 {s}");
        assert_eq!(parse_u32_ascii(s.as_bytes()), s.parse::<u32>().ok(), "u32 {s}");
        assert_eq!(parse_u16_ascii(s.as_bytes()), s.parse::<u16>().ok(), "u16 {s}");
        assert_eq!(parse_usize_ascii(s.as_bytes()), s.parse::<usize>().ok(), "usize {s}");
    }
}

#[test]
fn parse_bool_exact_words() {
    assert_eq!(parse_bool_ascii(b"true"), Some(true));
    assert_eq!(parse_bool_ascii(b"false"), Some(false));
    assert_eq!(parse_bool_ascii(b"True"), None);
    assert_eq!(parse_bool_ascii(b"1"), None);
    assert_eq!(parse_bool_ascii(b""), None);
}

#[test]
fn default_values() {
    assert_eq!(default_original_dir(), "original");
    assert_eq!(default_avif_dir(), "avif");
    assert_eq!(default_db_name(), "db.sqlite");
    assert_eq!(default_host(), "127.0.0.1");
    assert_eq!(default_port(), 3000);
    assert_eq!(default_quality(), 80);
    assert_eq!(default_max_width(), 2000);
    assert_eq!(default_thumbnail_width(), 1000);
    assert_eq!(default_max_file_size(), 10 * 1024 * 1024);
    assert_eq!(default_min_quality(), 30);
    assert_eq!(default_parallel_downloads(), 4);
    assert_eq!(default_parallel_conversions(), 2);
}

#[test]
fn image_config_default_is_valid() {
    let cfg = ImageConfig::default();
    assert_eq!(cfg.quality, 80);
    assert_eq!(cfg.max_width, 2000);
    assert_eq!(cfg.thumbnail_width, 1000);
    assert_eq!(cfg.max_file_size, 10_485_760);
    assert_eq!(cfg.min_quality, 30);
    assert!(cfg.is_valid());
}

#[test]
fn image_config_validity_bounds() {
    let mut cfg = ImageConfig::default();
    cfg.quality = 0;
    assert!(!cfg.is_valid());
    cfg.quality = 101;
    assert!(!cfg.is_valid());
    cfg.quality = 50;
    cfg.min_quality = 60;
    assert!(!cfg.is_valid());
}

#[test]
fn storage_paths_are_joined() {
    let cfg = sample_config();
    assert_eq!(join_path("a", "b"), "a/b");
    assert_eq!(cfg.original_path(), "./data/original");
    assert_eq!(cfg.avif_path(), "./data/avif");
    assert_eq!(cfg.db_path(), "./data/db.sqlite");
}
