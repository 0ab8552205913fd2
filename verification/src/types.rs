//! The shapes in which the remote photo library reports albums, assets, its
//! version, and token exchanges, together with their mathematical models.

use vstd::prelude::*;

verus! {

/// Kind of a remote media asset. Only images are mirrored.
#[derive(Clone, Copy, PartialEq, Eq, Structural)]
pub enum AssetType {
    Image,
    Video,
    Audio,
    Other,
}

/// One media asset as the remote library reports it inside an album.
pub struct AssetResponse {
    pub id: String,
    pub original_file_name: String,
    pub checksum: String,
    pub asset_type: AssetType,
    pub original_mime_type: Option<String>,
    pub file_size: Option<i64>,
}

/// Mathematical model of an [`AssetResponse`].
pub ghost struct AssetModel {
    pub id: Seq<char>,
    pub original_file_name: Seq<char>,
    pub checksum: Seq<char>,
    pub asset_type: AssetType,
    pub original_mime_type: Option<Seq<char>>,
    pub file_size: Option<i64>,
}

impl View for AssetResponse {
    type V = AssetModel;

    open spec fn view(&self) -> AssetModel {
        AssetModel {
            id: self.id@,
            original_file_name: self.original_file_name@,
            checksum: self.checksum@,
            asset_type: self.asset_type,
            original_mime_type: self.original_mime_type.deep_view(),
            file_size: self.file_size,
        }
    }
}

impl DeepView for AssetResponse {
    type V = AssetModel;

    open spec fn deep_view(&self) -> AssetModel {
        self.view()
    }
}

impl AssetModel {
    /// Whether this asset is mirrored at all.
    pub open spec fn is_image(self) -> bool {
        self.asset_type is Image
    }
}

impl AssetResponse {
    /// Whether this asset is an image, the only kind that is mirrored.
    pub fn is_image(&self) -> (r: bool)
        ensures
            r == self@.is_image(),
    {
        self.asset_type == AssetType::Image
    }

    /// A copy of this asset description, with the same model.
    pub fn clone_asset(&self) -> (r: AssetResponse)
        ensures
            r@ == self@,
    {
        AssetResponse {
            id: self.id.clone(),
            original_file_name: self.original_file_name.clone(),
            checksum: self.checksum.clone(),
            asset_type: self.asset_type,
            original_mime_type: crate::util::clone_opt_string(&self.original_mime_type),
            file_size: self.file_size,
        }
    }
}

/// One album as the remote library reports it; the asset list is filled only
/// by the single-album detail query.
pub struct AlbumResponse {
    pub id: String,
    pub album_name: String,
    pub asset_count: i64,
    pub assets: Vec<AssetResponse>,
}

/// Mathematical model of an [`AlbumResponse`].
pub ghost struct AlbumModel {
    pub id: Seq<char>,
    pub album_name: Seq<char>,
    pub asset_count: i64,
    pub assets: Seq<AssetModel>,
}

impl View for AlbumResponse {
    type V = AlbumModel;

    open spec fn view(&self) -> AlbumModel {
        AlbumModel {
            id: self.id@,
            album_name: self.album_name@,
            asset_count: self.asset_count,
            assets: self.assets.deep_view(),
        }
    }
}

impl DeepView for AlbumResponse {
    type V = AlbumModel;

    open spec fn deep_view(&self) -> AlbumModel {
        self.view()
    }
}

/// Version information the remote library answers a ping with.
pub struct ServerInfo {
    pub version: String,
}

/// The remote library's answer to an authorization-code exchange.
pub struct OAuthTokenResponse {
    pub access_token: String,
    pub token_type: String,
    pub expires_in: Option<u64>,
    pub refresh_token: Option<String>,
}

} // verus!
