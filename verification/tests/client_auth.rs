use avif_generator::auth::{AuthError, AuthProvider};
use avif_generator::client::{
    album_url, albums_url, asset_download_url, asset_url, merge_albums, server_version_url,
    shared_albums_url, trim_base_url,
};
use avif_generator::config::AuthConfig;
use avif_generator::types::{AlbumResponse, AssetResponse, AssetType, OAuthTokenResponse};

fn album(id: &str, name: &str) -> AlbumResponse {
    AlbumResponse {
        id: id.to_string(),
        album_name: name.to_string(),
        asset_count: 0,
        assets: Vec::new(),
    }
}

#[test]
fn trim_base_url_strips_trailing_slashes() {
    assert_eq!(trim_base_url("http://immich.local/"), "http://immich.local");
    assert_eq!(trim_base_url("http://immich.local///"), "http://immich.local");
    assert_eq!(trim_base_url("http://immich.local"), "http://immich.local");
    assert_eq!(trim_base_url(""), "");
    assert_eq!(trim_base_url("///"), "");
}

#[test]
fn endpoint_addresses() {
    let base = "http://immich.local";
    assert_eq!(albums_url(base), "http://immich.local/api/albums");
    assert_eq!(shared_albums_url(base), "http://immich.local/api/albums?shared=true");
    assert_eq!(server_version_url(base), "http://immich.local/api/server/version");
    assert_eq!(album_url(base, "a1"), "http://immich.local/api/albums/a1");
    assert_eq!(asset_url(base, "i1"), "http://immich.local/api/assets/i1");
    assert_eq!(asset_download_url(base, "i1"), "http://immich.local/api/assets/i1/original");
}

#[test]
fn merge_albums_dedups_by_id_first_seen() {
    let owned = vec![album("id1", "Holidays"), album("id2", "Family")];
    let shared = vec![album("id1", "Holidays (shared)"), album("id3", "Friends")];
    let merged = merge_albums(&owned, &shared);
    let ids: Vec<&str> = merged.iter().map(|a| a.id.as_str()).collect();
    assert_eq!(ids, vec!["id1", "id2", "id3"]);
    // the first-seen copy wins: the owned listing's name is kept
    assert_eq!(merged[0].album_name, "Holidays");
}

#[test]
fn merge_albums_keeps_order_without_duplicates() {
    let owned = vec![album("b", "B"), album("a", "A")];
    let shared: Vec<AlbumResponse> = Vec::new();
    let merged = merge_albums(&owned, &shared);
    assert_eq!(merged.len(), 2);
    assert_eq!(merged[0].id, "b");
    assert_eq!(merged[1].id, "a");
}

#[test]
fn api_key_header() {
    let provider = AuthProvider::from_config(&AuthConfig::ApiKey {
        api_key: "SECRET-REDACTED".to_string(),
    });
    let (name, value) = provider.get_auth_header().unwrap();
    assert_eq!(name, "x-api-key");
    assert_eq!(value, "SECRET-REDACTED");
}

fn oauth_config() -> AuthConfig {
    AuthConfig::OAuth {
        client_id: "cid".to_string(),
        client_secret: "SECRET-REDACTED".to_string(),
        token_url: "http://idp.local/token".to_string(),
        auth_url: "http://idp.local/auth".to_string(),
        redirect_uri: "http://localhost:3000/callback".to_string(),
    }
}

#[test]
fn oauth_without_token_cannot_sign() {
    let provider = AuthProvider::from_config(&oauth_config());
    assert_eq!(provider.get_auth_header().unwrap_err(), AuthError::TokenNotSet);
}

#[test]
fn oauth_bearer_header_after_set_token() {
    let mut provider = AuthProvider::from_config(&oauth_config());
    provider.set_token("tok123").unwrap();
    let (name, value) = provider.get_auth_header().unwrap();
    assert_eq!(name, "Authorization");
    assert_eq!(value, "Bearer tok123");
}

#[test]
fn set_token_refused_for_api_key() {
    let mut provider = AuthProvider::from_config(&AuthConfig::ApiKey { api_key: "k".to_string() });
    assert_eq!(provider.set_token("tok").unwrap_err(), AuthError::NotOAuth);
}

#[test]
fn token_exchange_answer_is_applied() {
    let mut provider = AuthProvider::from_config(&oauth_config());
    let resp = OAuthTokenResponse {
        access_token: "fresh".to_string(),
        token_type: "Bearer".to_string(),
        expires_in: Some(3600),
        refresh_token: Some("SECRET-REDACTED".to_string()),
    };
    provider.apply_token_response(&resp).unwrap();
    let (_, value) = provider.get_auth_header().unwrap();
    assert_eq!(value, "Bearer fresh");
}

#[test]
fn auth_error_messages() {
    assert_eq!(AuthError::TokenNotSet.message(), "OAuth token not set. Please authenticate first.");
    assert_eq!(AuthError::NotOAuth.message(), "operation requires OAuth authentication");
}

#[test]
fn asset_type_image_check() {
    let mut asset = AssetResponse {
        id: "i".to_string(),
        original_file_name: "f.jpg".to_string(),
        checksum: "c".to_string(),
        asset_type: AssetType::Image,
        original_mime_type: None,
        file_size: None,
    };
    assert!(asset.is_image());
    asset.asset_type = AssetType::Video;
    assert!(!asset.is_image());
    asset.asset_type = AssetType::Audio;
    assert!(!asset.is_image());
    asset.asset_type = AssetType::Other;
    assert!(!asset.is_image());
}
