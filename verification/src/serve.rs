//! The computable half of the read-only serving layer: which records answer
//! which request, and the exact listing and metadata values. The HTTP
//! surface around it only turns these answers into responses; a missing
//! album, record or file is a distinct not-found condition, never an
//! internal error.

use vstd::prelude::*;
use crate::db::{album_converted_images, has_album, has_image, Album, ImageModel, StateStore, SyncedImage};
use crate::disk::Disk;

verus! {

/// The not-found conditions the serving layer distinguishes.
#[derive(Clone, Copy, Debug, PartialEq, Eq, Structural)]
pub enum NotFound {
    UnknownAlbum,
    UnknownImage,
    NotConverted,
    FileMissing,
}

impl NotFound {
    /// The message of the not-found answer.
    pub fn message(&self) -> (r: String)
        ensures
            *self is UnknownAlbum ==> r@ == "Album not found"@,
            *self is UnknownImage ==> r@ == "Image not found"@,
            *self is NotConverted ==> r@ == "AVIF not yet converted"@,
            *self is FileMissing ==> r@ == "AVIF file not found on disk"@,
    {
        match self {
            NotFound::UnknownAlbum => String::from_str("Album not found"),
            NotFound::UnknownImage => String::from_str("Image not found"),
            NotFound::NotConverted => String::from_str("AVIF not yet converted"),
            NotFound::FileMissing => String::from_str("AVIF file not found on disk"),
        }
    }
}

/// One album of the album listing.
#[derive(Debug)]
pub struct AlbumInfo {
    pub id: String,
    pub name: String,
    pub image_count: i64,
}

/// One image of an album listing, with the address it is served under.
#[derive(Debug)]
pub struct ImageInfo {
    pub id: String,
    pub filename: String,
    pub url: String,
}

/// The listing of one album's converted images.
#[derive(Debug)]
pub struct ImageListResponse {
    pub album_id: String,
    pub album_name: String,
    pub images: Vec<ImageInfo>,
}

/// The metadata answer for one image.
#[derive(Debug)]
pub struct ImageMetadata {
    pub id: String,
    pub filename: String,
    pub album_id: String,
    pub file_size: Option<i64>,
    pub synced_at: Option<i64>,
    pub converted_at: Option<i64>,
}

/// The album listing: every known album with its id, name, and asset count
/// — a count never recorded reading as zero — sorted by name.
pub fn list_albums(store: &StateStore) -> (r: Vec<AlbumInfo>)
    ensures
        ({
            let albums = crate::db::sort_by_name(store.albums_model());
            &&& r@.len() == albums.len()
            &&& forall|i: int|
                0 <= i < r@.len() ==> {
                    let a = albums[i];
                    &&& (#[trigger] r@[i]).id@ == a.id
                    &&& r@[i].name@ == a.name
                    &&& r@[i].image_count == (match a.asset_count {
                        Some(c) => c,
                        None => 0,
                    })
                }
        }),
{
    let albums = Album::get_all(store);
    let ghost m = albums.deep_view();
    let n = albums.len();
    let mut out: Vec<AlbumInfo> = Vec::new();
    let mut i: usize = 0;
    while i < n
        invariant
            0 <= i <= n,
            n == albums@.len(),
            m == albums.deep_view(),
            m == crate::db::sort_by_name(store.albums_model()),
            out@.len() == i,
            forall|j: int|
                0 <= j < i ==> {
                    let a = m[j];
                    &&& (#[trigger] out@[j]).id@ == a.id
                    &&& out@[j].name@ == a.name
                    &&& out@[j].image_count == (match a.asset_count {
                        Some(c) => c,
                        None => 0,
                    })
                },
        decreases n - i,
    {
        let a = &albums[i];
        proof {
            assert(m[i as int] == albums@[i as int]@);
        }
        let image_count: i64 = match a.asset_count {
            Some(c) => c,
            None => 0,
        };
        out.push(AlbumInfo { id: a.id.clone(), name: a.name.clone(), image_count });
        i = i + 1;
    }
    out
}

/// The address one image is served under: `/images/<asset id>`.
pub fn image_url(id: &str) -> (r: String)
    ensures
        r@ == "/images/"@ + id@,
{
    String::from_str("/images/").concat(id)
}

/// The converted records of a listing, their order kept.
pub open spec fn converted_of(s: Seq<ImageModel>) -> Seq<ImageModel> {
    s.filter(|r: ImageModel| r.is_converted())
}

/// What the listing of one album serves: its converted records, sorted by
/// filename.
pub open spec fn album_listing(s: Seq<ImageModel>, album_id: Seq<char>) -> Seq<ImageModel> {
    converted_of(crate::db::sort_by_filename(crate::db::album_images(s, album_id)))
}

/// The listing of one album: not found when the store does not know the
/// album; otherwise its name and its converted images, sorted by filename,
/// each with the address it is served under.
pub fn get_album(store: &StateStore, album_id: &str) -> (r: Result<ImageListResponse, NotFound>)
    ensures
        r is Err <==> !has_album(store.albums_model(), album_id@),
        r is Err ==> r == Err::<ImageListResponse, NotFound>(NotFound::UnknownAlbum),
        (match r {
            Ok(resp) => {
                let imgs = album_listing(store.images_model(), album_id@);
                &&& resp.album_id@ == album_id@
                &&& (exists|i: int|
                    0 <= i < store.albums_model().len() && (#[trigger] store.albums_model()[i]).id
                        == album_id@ && resp.album_name@ == store.albums_model()[i].name)
                &&& resp.images@.len() == imgs.len()
                &&& (forall|i: int|
                    0 <= i < imgs.len() ==> {
                        &&& (#[trigger] resp.images@[i]).id@ == imgs[i].id
                        &&& resp.images@[i].filename@ == imgs[i].filename
                        &&& resp.images@[i].url@ == "/images/"@ + imgs[i].id
                    })
            },
            Err(_) => true,
        }),
{
    let album = match Album::get_by_id(store, album_id) {
        Some(a) => a,
        None => {
            return Err(NotFound::UnknownAlbum);
        },
    };
    let records = SyncedImage::get_by_album(store, album_id);
    let ghost recm = records.deep_view();
    let n = records.len();
    let mut images: Vec<ImageInfo> = Vec::new();
    let mut i: usize = 0;
    while i < n
        invariant
            0 <= i <= n,
            n == records@.len(),
            recm == records.deep_view(),
            recm == crate::db::sort_by_filename(
                crate::db::album_images(store.images_model(), album_id@),
            ),
            images@.len() == converted_of(recm.take(i as int)).len(),
            forall|j: int|
                0 <= j < images@.len() ==> {
                    let m = converted_of(recm.take(i as int))[j];
                    &&& (#[trigger] images@[j]).id@ == m.id
                    &&& images@[j].filename@ == m.filename
                    &&& images@[j].url@ == "/images/"@ + m.id
                },
        decreases n - i,
    {
        proof {
            reveal(Seq::filter);
            assert(recm.take(i + 1).drop_last() =~= recm.take(i as int));
            assert(recm.take(i + 1).last() == recm[i as int]);
        }
        let rec = &records[i];
        if rec.avif_path.is_some() {
            images.push(
                ImageInfo {
                    id: rec.id.clone(),
                    filename: rec.filename.clone(),
                    url: image_url(rec.id.as_str()),
                },
            );
        }
        i = i + 1;
    }
    proof {
        assert(recm.take(n as int) =~= recm);
    }
    Ok(ImageListResponse { album_id: String::from_str(album_id), album_name: album.name, images })
}

/// The bytes' location for one image. Success is owed exactly when a record
/// bears the id, is converted, and its derivative file is present; the
/// answer is then that file's path. Otherwise the applicable not-found
/// condition, each tied to its cause: unknown id, known but not yet
/// converted, or converted but with the file missing on disk.
pub fn serve_image(store: &StateStore, disk: &Disk, image_id: &str) -> (r: Result<String, NotFound>)
    requires
        store.wf(),
    ensures
        r is Ok <==> exists|i: int|
            0 <= i < store.images_model().len() && (#[trigger] store.images_model()[i]).id
                == image_id@ && store.images_model()[i].avif_path is Some && disk.has_path(
                store.images_model()[i].avif_path->0,
            ),
        (match r {
            Ok(path) => exists|i: int|
                0 <= i < store.images_model().len() && (#[trigger] store.images_model()[i]).id
                    == image_id@ && store.images_model()[i].avif_path == Some(path@) && disk.has_path(
                    path@,
                ),
            Err(e) => match e {
                NotFound::UnknownImage => !has_image(store.images_model(), image_id@),
                NotFound::NotConverted => exists|i: int|
                    0 <= i < store.images_model().len() && (#[trigger] store.images_model()[i]).id
                        == image_id@ && store.images_model()[i].avif_path is None,
                NotFound::FileMissing => exists|i: int|
                    0 <= i < store.images_model().len() && (#[trigger] store.images_model()[i]).id
                        == image_id@ && store.images_model()[i].avif_path is Some && !disk.has_path(
                        store.images_model()[i].avif_path->0,
                    ),
                NotFound::UnknownAlbum => false,
            },
        }),
{
    let record = match SyncedImage::get_by_id(store, image_id) {
        Some(rec) => rec,
        None => {
            proof {
                assert forall|i: int|
                    0 <= i < store.images_model().len() implies !((
                    #[trigger] store.images_model()[i]).id == image_id@) by {
                    assert(!has_image(store.images_model(), image_id@));
                }
            }
            return Err(NotFound::UnknownImage);
        },
    };
    let ghost w = choose|i: int|
        0 <= i < store.images_model().len() && record@ == #[trigger] store.images_model()[i];
    proof {
        // ids are unique, so the record found is the only one bearing the id
        assert forall|i: int|
            0 <= i < store.images_model().len() && (#[trigger] store.images_model()[i]).id
                == image_id@ implies store.images_model()[i] == record@ by {
            if i != w {
                assert(store.images_model()[i].id != store.images_model()[w].id);
            }
        }
    }
    match record.avif_path {
        Some(path) => {
            if disk.file_exists(path.as_str()) {
                proof {
                    assert(store.images_model()[w].avif_path == Some(path@));
                }
                Ok(path)
            } else {
                proof {
                    assert(store.images_model()[w].avif_path == Some(path@));
                }
                Err(NotFound::FileMissing)
            }
        },
        None => {
            proof {
                assert(store.images_model()[w].avif_path is None);
            }
            Err(NotFound::NotConverted)
        },
    }
}

/// The metadata answer for one image: not found when the record is unknown;
/// otherwise the record's fields as stored.
pub fn get_image_metadata(store: &StateStore, image_id: &str) -> (r: Result<ImageMetadata, NotFound>)
    ensures
        r is Err <==> !has_image(store.images_model(), image_id@),
        r is Err ==> r == Err::<ImageMetadata, NotFound>(NotFound::UnknownImage),
        (match r {
            Ok(meta) => exists|i: int|
                0 <= i < store.images_model().len() && {
                    let m = #[trigger] store.images_model()[i];
                    &&& m.id == image_id@
                    &&& meta.id@ == m.id
                    &&& meta.filename@ == m.filename
                    &&& meta.album_id@ == m.album_id
                    &&& meta.file_size == m.file_size
                    &&& meta.synced_at == m.synced_at
                    &&& meta.converted_at == m.converted_at
                },
            Err(_) => true,
        }),
{
    match SyncedImage::get_by_id(store, image_id) {
        Some(rec) => Ok(
            ImageMetadata {
                id: rec.id,
                filename: rec.filename,
                album_id: rec.album_id,
                file_size: rec.file_size,
                synced_at: rec.synced_at,
                converted_at: rec.converted_at,
            },
        ),
        None => Err(NotFound::UnknownImage),
    }
}

} // verus!
