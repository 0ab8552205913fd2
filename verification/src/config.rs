//! Configuration of the mirror: remote connection, storage layout, serving
//! address, sync concurrency and image-encoding parameters.

use vstd::prelude::*;

verus! {

/// Connection settings for the remote photo library.
pub struct ImmichConfig {
    pub url: String,
    pub auth: AuthConfig,
}

/// How requests to the remote library are authenticated: a static pre-shared
/// key, or a bearer token obtained through an authorization-code exchange.
pub enum AuthConfig {
    ApiKey {
        api_key: String,
    },
    OAuth {
        client_id: String,
        client_secret: String,
        token_url: String,
        auth_url: String,
        redirect_uri: String,
    },
}

/// Where originals, derivatives and the state database live on disk.
pub struct StorageConfig {
    pub base_path: String,
    pub original_dir: String,
    pub avif_dir: String,
    pub db_name: String,
}

/// Address the read-only serving layer binds to.
pub struct ServerConfig {
    pub host: String,
    pub port: u16,
}

/// Sync-engine behaviour: whether remotely removed assets are deleted
/// locally, and the widths of the two bounded worker pools.
pub struct SyncConfig {
    pub delete_removed: bool,
    pub parallel_downloads: usize,
    pub parallel_conversions: usize,
}

/// Encoding parameters of the conversion engine. Qualities are on the
/// encoder's 1..=100 scale; `max_file_size` is the byte budget each encoded
/// derivative should stay under.
pub struct ImageConfig {
    pub quality: u32,
    pub max_width: u32,
    pub thumbnail_width: u32,
    pub max_file_size: u64,
    pub min_quality: u32,
}

impl ImageConfig {
    /// The encoder accepts qualities 1..=100 only, and the size-budget
    /// back-off steps downward from `quality` to `min_quality`.
    pub open spec fn valid(self) -> bool {
        1 <= self.min_quality <= self.quality <= 100
    }

    /// Runtime form of [`ImageConfig::valid`].
    pub fn is_valid(&self) -> (r: bool)
        ensures
            r == self.valid(),
    {
        1 <= self.min_quality && self.min_quality <= self.quality && self.quality <= 100
    }
}

impl Default for ImageConfig {
    fn default() -> (r: Self)
        ensures
            r.quality == 80,
            r.max_width == 2000,
            r.thumbnail_width == 1000,
            r.max_file_size == 10485760,
            r.min_quality == 30,
    {
        ImageConfig {
            quality: default_quality(),
            max_width: default_max_width(),
            thumbnail_width: default_thumbnail_width(),
            max_file_size: default_max_file_size(),
            min_quality: default_min_quality(),
        }
    }
}

/// The whole configuration of one invocation.
pub struct Config {
    pub immich: ImmichConfig,
    pub storage: StorageConfig,
    pub server: ServerConfig,
    pub sync: SyncConfig,
    pub image: ImageConfig,
}

pub fn default_original_dir() -> (r: String)
    ensures
        r@ == "original"@,
{
    String::from_str("original")
}

pub fn default_avif_dir() -> (r: String)
    ensures
        r@ == "avif"@,
{
    String::from_str("avif")
}

pub fn default_db_name() -> (r: String)
    ensures
        r@ == "db.sqlite"@,
{
    String::from_str("db.sqlite")
}

pub fn default_host() -> (r: String)
    ensures
        r@ == "127.0.0.1"@,
{
    String::from_str("127.0.0.1")
}

pub fn default_port() -> (r: u16)
    ensures
        r == 3000,
{
    3000
}

pub fn default_quality() -> (r: u32)
    ensures
        r == 80,
{
    80
}

pub fn default_max_width() -> (r: u32)
    ensures
        r == 2000,
{
    2000
}

pub fn default_thumbnail_width() -> (r: u32)
    ensures
        r == 1000,
{
    1000
}

pub fn default_max_file_size() -> (r: u64)
    ensures
        r == 10485760,
{
    10 * 1024 * 1024
}

pub fn default_min_quality() -> (r: u32)
    ensures
        r == 30,
{
    30
}

pub fn default_parallel_downloads() -> (r: usize)
    ensures
        r == 4,
{
    4
}

pub fn default_parallel_conversions() -> (r: usize)
    ensures
        r == 2,
{
    2
}

/// `base` and `name` joined with a single separator.
pub open spec fn joined_path(base: Seq<char>, name: Seq<char>) -> Seq<char> {
    base + "/"@ + name
}

/// Appends `name` to the directory `base`.
pub fn join_path(base: &str, name: &str) -> (r: String)
    ensures
        r@ == joined_path(base@, name@),
{
    let mut s = String::from_str(base);
    s.append("/");
    s.append(name);
    s
}

impl Config {
    /// Root directory that downloaded originals are stored under.
    pub fn original_path(&self) -> (r: String)
        ensures
            r@ == joined_path(self.storage.base_path@, self.storage.original_dir@),
    {
        join_path(self.storage.base_path.as_str(), self.storage.original_dir.as_str())
    }

    /// Root directory that encoded derivatives are stored under.
    pub fn avif_path(&self) -> (r: String)
        ensures
            r@ == joined_path(self.storage.base_path@, self.storage.avif_dir@),
    {
        join_path(self.storage.base_path.as_str(), self.storage.avif_dir.as_str())
    }

    /// Location of the state-store database file.
    pub fn db_path(&self) -> (r: String)
        ensures
            r@ == joined_path(self.storage.base_path@, self.storage.db_name@),
    {
        join_path(self.storage.base_path.as_str(), self.storage.db_name.as_str())
    }
}

} // verus!
