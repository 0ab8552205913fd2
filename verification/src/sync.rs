//! The incremental sync engine. One pass over an album diffs the remote
//! asset inventory against the store-wide set of known records, downloads
//! only what is missing or stale, and — when enabled — removes records the
//! remote no longer lists. The engine's whole effect on the store and the
//! file tree is the mathematical function [`sync_album_effect`]; the
//! download itself is a transfer the surrounding process performs, and the
//! engine relies only on the destination path existing afterwards.

use vstd::prelude::*;
use crate::config::{joined_path, Config};
use crate::db::{
    has_image, image_row, remove_image_seq, unique_image_ids, upsert_album_seq, upsert_image_seq,
    album_row, Album, ImageModel, StateStore, SyncedImage,
};
use crate::disk::{add_path_seq, has_path_seq, remove_path_seq, Disk};
use crate::types::{AlbumModel, AlbumResponse, AssetModel, AssetResponse};
use crate::util::str_eq;

verus! {

/// Aggregate counts of one sync pass.
pub struct SyncResult {
    pub downloaded: usize,
    pub skipped: usize,
    pub failed: usize,
    pub removed: usize,
}

/// What the outside byte transfer answered for one planned asset.
#[derive(Clone, Copy, Debug, PartialEq, Eq, Structural)]
pub enum TransferOutcome {
    /// The original was fetched and written to its destination.
    Fetched,
    /// The transfer failed; nothing was written or recorded, and the asset
    /// stays eligible for retry on a future run.
    Failed,
}

/// Where an original is stored: `<root>/<album id>/<original filename>`.
pub open spec fn original_dest(root: Seq<char>, album_id: Seq<char>, filename: Seq<char>) -> Seq<char> {
    root + "/"@ + album_id + "/"@ + filename
}

/// Builds the destination path of one asset's original.
pub fn original_dest_path(root: &str, album_id: &str, filename: &str) -> (r: String)
    ensures
        r@ == original_dest(root@, album_id@, filename@),
{
    String::from_str(root).concat("/").concat(album_id).concat("/").concat(filename)
}

/// A known record bearing the asset's id holds a checksum other than the
/// remote one: the asset changed under the same id and must be re-synced.
pub open spec fn stale_in(imgs: Seq<ImageModel>, a: AssetModel) -> bool {
    exists|i: int|
        0 <= i < imgs.len() && #[trigger] imgs[i].id == a.id && imgs[i].checksum != Some(a.checksum)
}

/// The engine downloads an asset that is an image and is either unknown
/// store-wide or stale.
pub open spec fn wants_sync(imgs: Seq<ImageModel>, a: AssetModel) -> bool {
    a.is_image() && (!has_image(imgs, a.id) || stale_in(imgs, a))
}

/// The subset of an album's assets one pass downloads, in listing order.
pub open spec fn to_sync(assets: Seq<AssetModel>, imgs: Seq<ImageModel>) -> Seq<AssetModel> {
    assets.filter(|a: AssetModel| wants_sync(imgs, a))
}

/// The state the download phase threads through: records, paths present,
/// and the two counters.
pub ghost struct DownloadPhase {
    pub images: Seq<ImageModel>,
    pub paths: Seq<Seq<char>>,
    pub downloaded: nat,
    pub skipped: nat,
    pub failed: nat,
}

/// One asset of the download phase: skipped without any transfer when its
/// destination already exists — the idempotent recovery from a prior partial
/// run. Otherwise the outside transfer decides: fetched originals are
/// written and recorded with checksum, path, size and sync time; a failed
/// transfer is counted and leaves neither a file nor a record, so the asset
/// stays eligible for a future run.
pub open spec fn download_step(
    st: DownloadPhase,
    root: Seq<char>,
    album_id: Seq<char>,
    a: AssetModel,
    outcome: TransferOutcome,
    now: i64,
) -> DownloadPhase {
    let dest = original_dest(root, album_id, a.original_file_name);
    if has_path_seq(st.paths, dest) {
        DownloadPhase {
            images: st.images,
            paths: st.paths,
            downloaded: st.downloaded,
            skipped: st.skipped + 1,
            failed: st.failed,
        }
    } else {
        match outcome {
            TransferOutcome::Fetched => DownloadPhase {
                images: upsert_image_seq(
                    st.images,
                    image_row(
                        a.id,
                        album_id,
                        a.original_file_name,
                        Some(a.checksum),
                        Some(dest),
                        a.file_size,
                        now,
                    ),
                ),
                paths: add_path_seq(st.paths, dest),
                downloaded: st.downloaded + 1,
                skipped: st.skipped,
                failed: st.failed,
            },
            TransferOutcome::Failed => DownloadPhase {
                images: st.images,
                paths: st.paths,
                downloaded: st.downloaded,
                skipped: st.skipped,
                failed: st.failed + 1,
            },
        }
    }
}

/// The download phase over a whole plan, in listing order, each asset
/// consuming its own transfer outcome.
pub open spec fn download_phase(
    st: DownloadPhase,
    root: Seq<char>,
    album_id: Seq<char>,
    assets: Seq<AssetModel>,
    outcomes: Seq<TransferOutcome>,
    now: i64,
) -> DownloadPhase
    decreases assets.len(),
{
    if assets.len() == 0 {
        st
    } else {
        download_step(
            download_phase(st, root, album_id, assets.drop_last(), outcomes.drop_last(), now),
            root,
            album_id,
            assets.last(),
            outcomes.last(),
            now,
        )
    }
}

/// The tree after an optional path is removed.
pub open spec fn paths_without(paths: Seq<Seq<char>>, o: Option<Seq<char>>) -> Seq<Seq<char>> {
    match o {
        Some(p) => remove_path_seq(paths, p),
        None => paths,
    }
}

/// Removing one record: its original and both derivatives leave the tree,
/// best-effort, and the record leaves the store.
pub open spec fn removal_step(
    images: Seq<ImageModel>,
    paths: Seq<Seq<char>>,
    v: ImageModel,
) -> (Seq<ImageModel>, Seq<Seq<char>>) {
    (
        remove_image_seq(images, v.id),
        paths_without(paths_without(paths_without(paths, v.original_path), v.avif_path), v.thumbnail_path),
    )
}

/// The removal phase over all victims, in store order.
pub open spec fn removal_phase(
    images: Seq<ImageModel>,
    paths: Seq<Seq<char>>,
    victims: Seq<ImageModel>,
) -> (Seq<ImageModel>, Seq<Seq<char>>)
    decreases victims.len(),
{
    if victims.len() == 0 {
        (images, paths)
    } else {
        let p = removal_phase(images, paths, victims.drop_last());
        removal_step(p.0, p.1, victims.last())
    }
}

/// The remote listing still carries an image asset with this id.
pub open spec fn remote_has_image(assets: Seq<AssetModel>, id: Seq<char>) -> bool {
    exists|i: int| 0 <= i < assets.len() && (#[trigger] assets[i].id) == id && assets[i].is_image()
}

/// The records one pass removes: filed under this album and no longer
/// listed as a remote image.
pub open spec fn removal_victims(
    images: Seq<ImageModel>,
    assets: Seq<AssetModel>,
    album_id: Seq<char>,
) -> Seq<ImageModel> {
    images.filter(|r: ImageModel| r.album_id == album_id && !remote_has_image(assets, r.id))
}

/// The whole effect of one album sync pass.
pub ghost struct SyncAlbumEffect {
    pub albums: Seq<crate::db::AlbumRecModel>,
    pub images: Seq<ImageModel>,
    pub paths: Seq<Seq<char>>,
    pub downloaded: nat,
    pub skipped: nat,
    pub failed: nat,
    pub removed: nat,
}

/// One album sync pass as a function: the album row is upserted, the
/// download plan is the filter [`to_sync`] of the album's assets against the
/// store-wide known records, the plan runs through [`download_phase`], and,
/// when removal is enabled, the no-longer-listed records of this album are
/// removed together with their files.
pub open spec fn sync_album_effect(
    albums: Seq<crate::db::AlbumRecModel>,
    images: Seq<ImageModel>,
    paths: Seq<Seq<char>>,
    album: AlbumModel,
    transfers: Seq<TransferOutcome>,
    root: Seq<char>,
    delete_removed: bool,
    now: i64,
) -> SyncAlbumEffect {
    let albums2 = upsert_album_seq(albums, album_row(album.id, album.album_name, album.asset_count, now));
    let plan = to_sync(album.assets, images);
    let dl = download_phase(
        DownloadPhase { images, paths, downloaded: 0, skipped: 0, failed: 0 },
        root,
        album.id,
        plan,
        transfers,
        now,
    );
    if delete_removed {
        let victims = removal_victims(dl.images, album.assets, album.id);
        let fin = removal_phase(dl.images, dl.paths, victims);
        SyncAlbumEffect {
            albums: albums2,
            images: fin.0,
            paths: fin.1,
            downloaded: dl.downloaded,
            skipped: dl.skipped,
            failed: dl.failed,
            removed: victims.len(),
        }
    } else {
        SyncAlbumEffect {
            albums: albums2,
            images: dl.images,
            paths: dl.paths,
            downloaded: dl.downloaded,
            skipped: dl.skipped,
            failed: dl.failed,
            removed: 0,
        }
    }
}

/// The incremental sync engine, configured once per invocation.
pub struct SyncService {
    pub config: Config,
}

impl SyncService {
    /// An engine with this configuration.
    pub fn new(config: Config) -> (r: SyncService)
        ensures
            r.config == config,
    {
        SyncService { config }
    }

    /// The staleness hook of the diff: a known record is stale exactly when
    /// its stored checksum is not the remote one; a record that never stored
    /// a checksum counts as stale, so the asset is fetched again rather than
    /// silently kept. The plan [`to_sync`] applies this rule to every known
    /// record bearing the asset's id.
    pub fn needs_update(&self, stored_checksum: &Option<String>, remote_checksum: &str) -> (r: bool)
        ensures
            r == (stored_checksum.deep_view() != Some(remote_checksum@)),
    {
        match stored_checksum {
            Some(c) => !str_eq(c.as_str(), remote_checksum),
            None => true,
        }
    }
}

/// Whether the store holds a record bearing `id` whose checksum is not
/// `checksum`.
fn store_stale(store: &StateStore, id: &str, checksum: &str) -> (r: bool)
    requires
        store.wf(),
    ensures
        r == exists|i: int|
            0 <= i < store.images_model().len() && (#[trigger] store.images_model()[i].id) == id@
                && store.images_model()[i].checksum != Some(checksum@),
{
    let n = store.images.len();
    let mut i: usize = 0;
    while i < n
        invariant
            0 <= i <= n,
            n == store.images@.len(),
            store.wf(),
            forall|j: int|
                0 <= j < i ==> !((#[trigger] store.images_model()[j].id) == id@
                    && store.images_model()[j].checksum != Some(checksum@)),
        decreases n - i,
    {
        if str_eq(store.images[i].id.as_str(), id) {
            let rec = &store.images[i];
            proof {
                assert(store.images_model()[i as int] == store.images@[i as int]@);
            }
            let stale: bool = match &rec.checksum {
                Some(c) => {
                    let ne = !str_eq(c.as_str(), checksum);
                    proof {
                        assert(rec@.checksum == Some(c@));
                    }
                    ne
                },
                None => true,
            };
            if stale {
                proof {
                    assert(store.images_model()[i as int].id == id@);
                    assert(store.images_model()[i as int].checksum != Some(checksum@));
                }
                return true;
            }
        }
        i = i + 1;
    }
    false
}

/// Whether the store holds a record bearing `id`.
fn store_has_image(store: &StateStore, id: &str) -> (r: bool)
    ensures
        r == has_image(store.images_model(), id@),
{
    let n = store.images.len();
    let mut i: usize = 0;
    while i < n
        invariant
            0 <= i <= n,
            n == store.images@.len(),
            forall|j: int| 0 <= j < i ==> (#[trigger] store.images_model()[j].id) != id@,
        decreases n - i,
    {
        if str_eq(store.images[i].id.as_str(), id) {
            proof {
                assert(store.images_model()[i as int].id == id@);
            }
            return true;
        }
        i = i + 1;
    }
    false
}

/// The subset of an album's assets one pass downloads: images that are
/// unknown store-wide or stale, in listing order.
pub fn plan_album_sync(store: &StateStore, assets: &Vec<AssetResponse>) -> (r: Vec<AssetResponse>)
    requires
        store.wf(),
    ensures
        r.deep_view() == to_sync(assets.deep_view(), store.images_model()),
{
    let ghost m = assets.deep_view();
    let ghost imgs = store.images_model();
    let n = assets.len();
    let mut out: Vec<AssetResponse> = Vec::new();
    let mut i: usize = 0;
    while i < n
        invariant
            0 <= i <= n,
            n == assets@.len(),
            m == assets.deep_view(),
            imgs == store.images_model(),
            store.wf(),
            out.deep_view() =~= to_sync(m.take(i as int), imgs),
        decreases n - i,
    {
        let ghost prev = out@;
        let ghost prevdv = out.deep_view();
        proof {
            assert(prevdv =~= to_sync(m.take(i as int), imgs));
            assert(prevdv.len() == prev.len());
            reveal(Seq::filter);
            assert(m.take(i + 1).drop_last() =~= m.take(i as int));
            assert(m.take(i + 1).last() == m[i as int]);
        }
        let a = &assets[i];
        let wanted = a.is_image() && (!store_has_image(store, a.id.as_str()) || store_stale(
            store,
            a.id.as_str(),
            a.checksum.as_str(),
        ));
        proof {
            assert(wanted == wants_sync(imgs, m[i as int]));
        }
        if wanted {
            out.push(a.clone_asset());
            proof {
                assert(out@.last()@ == m[i as int]);
                assert forall|j: int| 0 <= j < out@.len() implies out.deep_view()[j] == to_sync(
                    m.take(i + 1),
                    imgs,
                )[j] by {
                    if j < prevdv.len() {
                        assert(out@[j] == prev[j]);
                        assert(prevdv[j] == prev[j].deep_view());
                    }
                }
                assert(out.deep_view() =~= to_sync(m.take(i + 1), imgs));
            }
        } else {
            proof {
                assert(out.deep_view() =~= to_sync(m.take(i + 1), imgs));
            }
        }
        i = i + 1;
    }
    proof {
        assert(m.take(n as int) =~= m);
    }
    out
}

/// Whether the remote listing carries an image asset bearing `id`.
fn assets_have_image(assets: &Vec<AssetResponse>, id: &str) -> (r: bool)
    ensures
        r == remote_has_image(assets.deep_view(), id@),
{
    let n = assets.len();
    let mut i: usize = 0;
    while i < n
        invariant
            0 <= i <= n,
            n == assets@.len(),
            forall|j: int|
                0 <= j < i ==> !((#[trigger] assets.deep_view()[j].id) == id@
                    && assets.deep_view()[j].is_image()),
        decreases n - i,
    {
        if assets[i].is_image() && str_eq(assets[i].id.as_str(), id) {
            proof {
                assert(assets.deep_view()[i as int].id == id@);
            }
            return true;
        }
        i = i + 1;
    }
    false
}

/// The records one pass removes, cloned out of the store in store order.
fn collect_removal_victims(store: &StateStore, assets: &Vec<AssetResponse>, album_id: &str) -> (r: Vec<
    SyncedImage,
>)
    ensures
        r.deep_view() == removal_victims(store.images_model(), assets.deep_view(), album_id@),
{
    let ghost m = store.images_model();
    let ghost am = assets.deep_view();
    let n = store.images.len();
    let mut out: Vec<SyncedImage> = Vec::new();
    let mut i: usize = 0;
    while i < n
        invariant
            0 <= i <= n,
            n == store.images@.len(),
            m == store.images_model(),
            am == assets.deep_view(),
            out.deep_view() =~= removal_victims(m.take(i as int), am, album_id@),
        decreases n - i,
    {
        let ghost prev = out@;
        let ghost prevdv = out.deep_view();
        proof {
            assert(prevdv =~= removal_victims(m.take(i as int), am, album_id@));
            assert(prevdv.len() == prev.len());
            reveal(Seq::filter);
            assert(m.take(i + 1).drop_last() =~= m.take(i as int));
            assert(m.take(i + 1).last() == m[i as int]);
        }
        let rec = &store.images[i];
        if str_eq(rec.album_id.as_str(), album_id) && !assets_have_image(assets, rec.id.as_str()) {
            out.push(store.images[i].clone_rec());
            proof {
                assert(out@.last()@ == m[i as int]);
                assert forall|j: int| 0 <= j < out@.len() implies out.deep_view()[j]
                    == removal_victims(m.take(i + 1), am, album_id@)[j] by {
                    if j < prevdv.len() {
                        assert(out@[j] == prev[j]);
                        assert(prevdv[j] == prev[j].deep_view());
                    }
                }
                assert(out.deep_view() =~= removal_victims(m.take(i + 1), am, album_id@));
            }
        } else {
            proof {
                assert(out.deep_view() =~= removal_victims(m.take(i + 1), am, album_id@));
            }
        }
        i = i + 1;
    }
    proof {
        assert(m.take(n as int) =~= m);
    }
    out
}

impl SyncService {
    /// One pass over one album, already fetched from the remote: upserts the
    /// album row, processes the missing or stale image assets — skipping any
    /// whose destination file already exists, recording each fetched
    /// transfer, and counting each failed one without touching its record —
    /// and, when enabled, removes this album's records the remote no longer
    /// lists. `transfers` answers, per planned asset, what the outside byte
    /// transfer did; the whole effect equals [`sync_album_effect`].
    pub fn sync_album(
        &self,
        store: &mut StateStore,
        disk: &mut Disk,
        album: &AlbumResponse,
        transfers: &Vec<TransferOutcome>,
        now: i64,
    ) -> (r: SyncResult)
        requires
            old(store).wf(),
            transfers@.len() == to_sync(album@.assets, old(store).images_model()).len(),
        ensures
            final(store).wf(),
            ({
                let eff = sync_album_effect(
                    old(store).albums_model(),
                    old(store).images_model(),
                    old(disk).paths(),
                    album@,
                    transfers@,
                    joined_path(self.config.storage.base_path@, self.config.storage.original_dir@),
                    self.config.sync.delete_removed,
                    now,
                );
                &&& final(store).albums_model() == eff.albums
                &&& final(store).images_model() == eff.images
                &&& final(disk).paths() == eff.paths
                &&& r.downloaded == eff.downloaded
                &&& r.skipped == eff.skipped
                &&& r.failed == eff.failed
                &&& r.removed == eff.removed
            }),
    {
        let ghost albums0 = store.albums_model();
        let ghost images0 = store.images_model();
        let ghost paths0 = disk.paths();
        let ghost aid = album@.id;

        Album::upsert(store, album.id.as_str(), album.album_name.as_str(), album.asset_count, now);
        let ghost albums2 = store.albums_model();

        let plan = plan_album_sync(store, &album.assets);
        let ghost planm = plan.deep_view();
        let root = self.config.original_path();
        let ghost rootv = root@;
        let ghost init = DownloadPhase {
            images: images0,
            paths: paths0,
            downloaded: 0,
            skipped: 0,
            failed: 0,
        };
        let ghost tm = transfers@;

        let mut downloaded: usize = 0;
        let mut skipped: usize = 0;
        let mut failed: usize = 0;
        let n = plan.len();
        let mut k: usize = 0;
        while k < n
            invariant
                0 <= k <= n,
                n == plan@.len(),
                n == transfers@.len(),
                planm == plan.deep_view(),
                tm == transfers@,
                rootv == root@,
                aid == album@.id,
                init == (DownloadPhase {
                    images: images0,
                    paths: paths0,
                    downloaded: 0nat,
                    skipped: 0nat,
                    failed: 0nat,
                }),
                store.wf(),
                store.albums_model() == albums2,
                downloaded + skipped + failed == k,
                ({
                    let st = download_phase(init, rootv, aid, planm.take(k as int), tm.take(k as int), now);
                    &&& store.images_model() == st.images
                    &&& disk.paths() == st.paths
                    &&& downloaded == st.downloaded
                    &&& skipped == st.skipped
                    &&& failed == st.failed
                }),
            decreases n - k,
        {
            let ghost pre = download_phase(init, rootv, aid, planm.take(k as int), tm.take(k as int), now);
            proof {
                assert(planm.take(k + 1).drop_last() =~= planm.take(k as int));
                assert(planm.take(k + 1).last() == planm[k as int]);
                assert(tm.take(k + 1).drop_last() =~= tm.take(k as int));
                assert(tm.take(k + 1).last() == tm[k as int]);
                assert(download_phase(init, rootv, aid, planm.take(k + 1), tm.take(k + 1), now)
                    == download_step(pre, rootv, aid, planm[k as int], tm[k as int], now));
            }
            let a = &plan[k];
            proof {
                assert(planm[k as int] == a@);
            }
            let dest = original_dest_path(root.as_str(), album.id.as_str(), a.original_file_name.as_str());
            if disk.file_exists(dest.as_str()) {
                skipped = skipped + 1;
            } else {
                match transfers[k] {
                    TransferOutcome::Fetched => {
                        disk.write(dest.as_str());
                        SyncedImage::upsert(
                            store,
                            a.id.as_str(),
                            album.id.as_str(),
                            a.original_file_name.as_str(),
                            Some(a.checksum.as_str()),
                            Some(dest.as_str()),
                            a.file_size,
                            now,
                        );
                        downloaded = downloaded + 1;
                    },
                    TransferOutcome::Failed => {
                        failed = failed + 1;
                    },
                }
            }
            k = k + 1;
        }
        proof {
            assert(planm.take(n as int) =~= planm);
            assert(tm.take(n as int) =~= tm);
        }

        let mut removed: usize = 0;
        if self.config.sync.delete_removed {
            let ghost dl = download_phase(init, rootv, aid, planm, tm, now);
            let victims = collect_removal_victims(store, &album.assets, album.id.as_str());
            let ghost vm = victims.deep_view();
            let vn = victims.len();
            let mut v: usize = 0;
            while v < vn
                invariant
                    0 <= v <= vn,
                    vn == victims@.len(),
                    vm == victims.deep_view(),
                    removed == v,
                    store.wf(),
                    store.albums_model() == albums2,
                    ({
                        let p = removal_phase(dl.images, dl.paths, vm.take(v as int));
                        &&& store.images_model() == p.0
                        &&& disk.paths() == p.1
                    }),
                decreases vn - v,
            {
                let ghost p = removal_phase(dl.images, dl.paths, vm.take(v as int));
                proof {
                    assert(vm.take(v + 1).drop_last() =~= vm.take(v as int));
                    assert(vm.take(v + 1).last() == vm[v as int]);
                    assert(removal_phase(dl.images, dl.paths, vm.take(v + 1)) == removal_step(
                        p.0,
                        p.1,
                        vm[v as int],
                    ));
                }
                let rec = &victims[v];
                proof {
                    assert(vm[v as int] == rec@);
                }
                match &rec.original_path {
                    Some(pth) => disk.remove(pth.as_str()),
                    None => (),
                }
                match &rec.avif_path {
                    Some(pth) => disk.remove(pth.as_str()),
                    None => (),
                }
                match &rec.thumbnail_path {
                    Some(pth) => disk.remove(pth.as_str()),
                    None => (),
                }
                SyncedImage::delete_by_id(store, rec.id.as_str());
                removed = removed + 1;
                v = v + 1;
            }
            proof {
                assert(vm.take(vn as int) =~= vm);
            }
        }

        SyncResult { downloaded, skipped, failed, removed }
    }
}

/// Some asset in the listing bears this id.
pub open spec fn listed_asset_id(assets: Seq<AssetModel>, id: Seq<char>) -> bool {
    exists|k: int| 0 <= k < assets.len() && (#[trigger] assets[k].id) == id
}

/// No two assets of a listing share an id; the remote assigns them.
pub open spec fn unique_asset_ids(assets: Seq<AssetModel>) -> bool {
    forall|i: int, j: int| 0 <= i < j < assets.len() ==> #[trigger] assets[i].id != #[trigger] assets[j].id
}

/// Upserting keeps record ids unique.
proof fn lemma_upsert_image_unique(s: Seq<ImageModel>, u: ImageModel)
    requires
        unique_image_ids(s),
    ensures
        unique_image_ids(upsert_image_seq(s, u)),
        upsert_image_seq(s, u).len() >= s.len(),
        forall|j: int| 0 <= j < s.len() ==> #[trigger] upsert_image_seq(s, u)[j].id == s[j].id,
        forall|j: int|
            0 <= j < s.len() && s[j].id != u.id ==> #[trigger] upsert_image_seq(s, u)[j] == s[j],
        forall|j: int|
            s.len() <= j < upsert_image_seq(s, u).len() ==> #[trigger] upsert_image_seq(s, u)[j].id
                == u.id,
{
    let out = upsert_image_seq(s, u);
    if has_image(s, u.id) {
        assert forall|j: int| 0 <= j < s.len() implies #[trigger] out[j].id == s[j].id by {
            assert(out[j] == if s[j].id == u.id {
                crate::db::apply_sync_fields(s[j], u)
            } else {
                s[j]
            });
        }
    }
}

/// The download phase never loses a path, keeps record ids unique, leaves
/// every record whose id the plan does not carry untouched, and gives every
/// record it adds or rewrites an id the plan carries.
proof fn lemma_download_phase_frame(
    st: DownloadPhase,
    root: Seq<char>,
    aid: Seq<char>,
    assets: Seq<AssetModel>,
    outcomes: Seq<TransferOutcome>,
    now: i64,
)
    requires
        unique_image_ids(st.images),
    ensures
        ({
            let r = download_phase(st, root, aid, assets, outcomes, now);
            &&& unique_image_ids(r.images)
            &&& r.images.len() >= st.images.len()
            &&& forall|p: Seq<char>| has_path_seq(st.paths, p) ==> has_path_seq(r.paths, p)
            &&& forall|j: int|
                0 <= j < st.images.len() ==> (#[trigger] r.images[j].id) == st.images[j].id
            &&& forall|j: int|
                0 <= j < st.images.len() && !listed_asset_id(assets, st.images[j].id) ==> (
                #[trigger] r.images[j]) == st.images[j]
            &&& forall|j: int|
                st.images.len() <= j < r.images.len() ==> listed_asset_id(
                    assets,
                    (#[trigger] r.images[j]).id,
                )
        }),
    decreases assets.len(),
{
    if assets.len() > 0 {
        let d = assets.drop_last();
        let a = assets.last();
        lemma_download_phase_frame(st, root, aid, d, outcomes.drop_last(), now);
        let mid = download_phase(st, root, aid, d, outcomes.drop_last(), now);
        let r = download_phase(st, root, aid, assets, outcomes, now);
        assert(r == download_step(mid, root, aid, a, outcomes.last(), now));
        assert forall|id: Seq<char>| listed_asset_id(d, id) implies listed_asset_id(assets, id) by {
            let k = choose|k: int| 0 <= k < d.len() && d[k].id == id;
            assert(assets[k].id == id);
        }
        assert(listed_asset_id(assets, a.id)) by {
            assert(assets[assets.len() - 1].id == a.id);
        }
        let dest = original_dest(root, aid, a.original_file_name);
        if has_path_seq(mid.paths, dest) {
        } else if outcomes.last() is Fetched {
            let u = image_row(a.id, aid, a.original_file_name, Some(a.checksum), Some(dest), a.file_size, now);
            lemma_upsert_image_unique(mid.images, u);
            assert forall|p: Seq<char>| has_path_seq(mid.paths, p) implies has_path_seq(
                r.paths,
                p,
            ) by {
                let k = choose|k: int| 0 <= k < mid.paths.len() && mid.paths[k] == p;
                assert(r.paths[k] == p);
            }
        }
    }
}

/// When every transfer was fetched, every planned asset's destination path
/// exists after the download phase.
proof fn lemma_download_phase_covers(
    st: DownloadPhase,
    root: Seq<char>,
    aid: Seq<char>,
    assets: Seq<AssetModel>,
    outcomes: Seq<TransferOutcome>,
    now: i64,
)
    requires
        outcomes.len() == assets.len(),
        forall|k: int| 0 <= k < outcomes.len() ==> (#[trigger] outcomes[k]) is Fetched,
    ensures
        ({
            let r = download_phase(st, root, aid, assets, outcomes, now);
            forall|k: int|
                0 <= k < assets.len() ==> has_path_seq(
                    r.paths,
                    original_dest(root, aid, (#[trigger] assets[k]).original_file_name),
                )
        }),
    decreases assets.len(),
{
    if assets.len() > 0 {
        let d = assets.drop_last();
        let a = assets.last();
        assert forall|k: int|
            0 <= k < outcomes.drop_last().len() implies (#[trigger] outcomes.drop_last()[k])
            is Fetched by {
            assert(outcomes.drop_last()[k] == outcomes[k]);
        }
        lemma_download_phase_covers(st, root, aid, d, outcomes.drop_last(), now);
        let mid = download_phase(st, root, aid, d, outcomes.drop_last(), now);
        let r = download_phase(st, root, aid, assets, outcomes, now);
        assert(outcomes[outcomes.len() - 1] is Fetched);
        assert(r == download_step(mid, root, aid, a, outcomes.last(), now));
        let dest = original_dest(root, aid, a.original_file_name);
        assert forall|p: Seq<char>| has_path_seq(mid.paths, p) implies has_path_seq(r.paths, p) by {
            let k = choose|k: int| 0 <= k < mid.paths.len() && mid.paths[k] == p;
            assert(r.paths[k] == p);
        }
        if !has_path_seq(mid.paths, dest) {
            assert(r.paths == mid.paths.push(dest));
            assert(r.paths[mid.paths.len() as int] == dest);
            assert(has_path_seq(r.paths, dest));
        }
        assert forall|k: int|
            0 <= k < assets.len() implies has_path_seq(
            r.paths,
            original_dest(root, aid, (#[trigger] assets[k]).original_file_name),
        ) by {
            if k < assets.len() - 1 {
                assert(assets[k] == d[k]);
                assert(has_path_seq(mid.paths, original_dest(root, aid, d[k].original_file_name)));
            } else {
                assert(assets[k] == a);
            }
        }
    }
}

/// When every planned destination already exists, the download phase
/// consults no transfer at all: it only counts each asset as skipped.
proof fn lemma_download_phase_all_present(
    st: DownloadPhase,
    root: Seq<char>,
    aid: Seq<char>,
    assets: Seq<AssetModel>,
    outcomes: Seq<TransferOutcome>,
    now: i64,
)
    requires
        forall|k: int|
            0 <= k < assets.len() ==> has_path_seq(
                st.paths,
                original_dest(root, aid, (#[trigger] assets[k]).original_file_name),
            ),
    ensures
        ({
            let r = download_phase(st, root, aid, assets, outcomes, now);
            &&& r.images == st.images
            &&& r.paths == st.paths
            &&& r.downloaded == st.downloaded
            &&& r.skipped == st.skipped + assets.len()
            &&& r.failed == st.failed
        }),
    decreases assets.len(),
{
    if assets.len() > 0 {
        let d = assets.drop_last();
        let a = assets.last();
        assert forall|k: int|
            0 <= k < d.len() implies has_path_seq(
            st.paths,
            original_dest(root, aid, (#[trigger] d[k]).original_file_name),
        ) by {
            assert(d[k] == assets[k]);
        }
        lemma_download_phase_all_present(st, root, aid, d, outcomes.drop_last(), now);
        assert(assets[assets.len() - 1] == a);
    }
}

/// Every asset the plan carries comes from the listing and is wanted, and
/// every wanted asset of the listing is in the plan.
proof fn lemma_to_sync_elems(assets: Seq<AssetModel>, imgs: Seq<ImageModel>)
    ensures
        forall|k: int|
            0 <= k < to_sync(assets, imgs).len() ==> assets.contains(#[trigger] to_sync(assets, imgs)[k])
                && wants_sync(imgs, to_sync(assets, imgs)[k]),
        forall|q: int|
            0 <= q < assets.len() && wants_sync(imgs, #[trigger] assets[q]) ==> to_sync(
                assets,
                imgs,
            ).contains(assets[q]),
    decreases assets.len(),
{
    reveal(Seq::filter);
    if assets.len() > 0 {
        let d = assets.drop_last();
        let a = assets.last();
        lemma_to_sync_elems(d, imgs);
        let pd = to_sync(d, imgs);
        let pa = to_sync(assets, imgs);
        assert(pa == if wants_sync(imgs, a) {
            pd.push(a)
        } else {
            pd
        });
        assert forall|k: int|
            0 <= k < pa.len() implies assets.contains(#[trigger] pa[k]) && wants_sync(
            imgs,
            pa[k],
        ) by {
            if k < pd.len() {
                assert(pa[k] == pd[k]);
                let q = choose|q: int| 0 <= q < d.len() && d[q] == pd[k];
                assert(assets[q] == pd[k]);
            } else {
                assert(pa[k] == a);
                assert(assets[assets.len() - 1] == a);
            }
        }
        assert forall|q: int|
            0 <= q < assets.len() && wants_sync(imgs, #[trigger] assets[q]) implies pa.contains(
            assets[q],
        ) by {
            if q < assets.len() - 1 {
                assert(d[q] == assets[q]);
                assert(pd.contains(assets[q]));
                let k = choose|k: int| 0 <= k < pd.len() && pd[k] == assets[q];
                assert(pa[k] == assets[q]);
            } else {
                assert(pa[pa.len() - 1] == assets[q]);
            }
        }
    }
}

/// The removal phase keeps record ids unique: it only ever drops records.
proof fn lemma_removal_phase_unique(
    images: Seq<ImageModel>,
    paths: Seq<Seq<char>>,
    victims: Seq<ImageModel>,
)
    requires
        unique_image_ids(images),
    ensures
        unique_image_ids(removal_phase(images, paths, victims).0),
    decreases victims.len(),
{
    if victims.len() > 0 {
        lemma_removal_phase_unique(images, paths, victims.drop_last());
        let p = removal_phase(images, paths, victims.drop_last());
        let id = victims.last().id;
        crate::db::lemma_filter_keeps_unique_ids(p.0, |r: ImageModel| r.id != id);
    }
}

/// No sync pass ever duplicates a record: whatever the album says and
/// whether or not removal is enabled, the store's ids stay unique.
pub proof fn lemma_sync_album_keeps_ids_unique(
    albums: Seq<crate::db::AlbumRecModel>,
    images: Seq<ImageModel>,
    paths: Seq<Seq<char>>,
    album: AlbumModel,
    transfers: Seq<TransferOutcome>,
    root: Seq<char>,
    delete_removed: bool,
    now: i64,
)
    requires
        unique_image_ids(images),
    ensures
        unique_image_ids(
            sync_album_effect(albums, images, paths, album, transfers, root, delete_removed, now).images,
        ),
{
    let plan = to_sync(album.assets, images);
    let init = DownloadPhase { images, paths, downloaded: 0, skipped: 0, failed: 0 };
    lemma_download_phase_frame(init, root, album.id, plan, transfers, now);
    let dl = download_phase(init, root, album.id, plan, transfers, now);
    if delete_removed {
        let victims = removal_victims(dl.images, album.assets, album.id);
        lemma_removal_phase_unique(dl.images, dl.paths, victims);
    }
}

/// A removed path is the only one removed: every other present path stays.
proof fn lemma_remove_path_keeps(s: Seq<Seq<char>>, x: Seq<char>, q: Seq<char>)
    requires
        has_path_seq(s, q),
        q != x,
    ensures
        has_path_seq(remove_path_seq(s, x), q),
    decreases s.len(),
{
    reveal(Seq::filter);
    if s.len() > 0 {
        let d = s.drop_last();
        let i = choose|i: int| 0 <= i < s.len() && s[i] == q;
        if i < s.len() - 1 {
            assert(d[i] == q);
            assert(has_path_seq(d, q));
            lemma_remove_path_keeps(d, x, q);
            let out = remove_path_seq(s, x);
            let k = choose|k: int|
                0 <= k < remove_path_seq(d, x).len() && remove_path_seq(d, x)[k] == q;
            assert(out[k] == q);
        } else {
            assert(s.last() == q);
            let out = remove_path_seq(s, x);
            assert(out.last() == q);
        }
    }
}

/// As [`lemma_remove_path_keeps`], for an optional removal.
proof fn lemma_paths_without_keeps(paths: Seq<Seq<char>>, o: Option<Seq<char>>, q: Seq<char>)
    requires
        has_path_seq(paths, q),
        o != Some(q),
    ensures
        has_path_seq(paths_without(paths, o), q),
{
    match o {
        Some(p) => lemma_remove_path_keeps(paths, p, q),
        None => {},
    }
}

/// The removal phase deletes only the victims' own stored paths: any other
/// present path stays present.
proof fn lemma_removal_phase_keeps_path(
    images: Seq<ImageModel>,
    paths: Seq<Seq<char>>,
    victims: Seq<ImageModel>,
    q: Seq<char>,
)
    requires
        has_path_seq(paths, q),
        forall|k: int|
            0 <= k < victims.len() ==> (#[trigger] victims[k]).original_path != Some(q)
                && victims[k].avif_path != Some(q) && victims[k].thumbnail_path != Some(q),
    ensures
        has_path_seq(removal_phase(images, paths, victims).1, q),
    decreases victims.len(),
{
    if victims.len() > 0 {
        let d = victims.drop_last();
        lemma_removal_phase_keeps_path(images, paths, d, q);
        let p = removal_phase(images, paths, d);
        let v = victims.last();
        assert(victims[victims.len() - 1] == v);
        lemma_paths_without_keeps(p.1, v.original_path, q);
        lemma_paths_without_keeps(paths_without(p.1, v.original_path), v.avif_path, q);
        lemma_paths_without_keeps(
            paths_without(paths_without(p.1, v.original_path), v.avif_path),
            v.thumbnail_path,
            q,
        );
    }
}

/// Deleting an id keeps every record bearing another id.
proof fn lemma_remove_image_keeps(s: Seq<ImageModel>, id: Seq<char>, r: ImageModel)
    requires
        s.contains(r),
        r.id != id,
    ensures
        remove_image_seq(s, id).contains(r),
    decreases s.len(),
{
    reveal(Seq::filter);
    if s.len() > 0 {
        let d = s.drop_last();
        let i = choose|i: int| 0 <= i < s.len() && s[i] == r;
        if i < s.len() - 1 {
            assert(d[i] == r);
            lemma_remove_image_keeps(d, id, r);
            let out = remove_image_seq(s, id);
            let k = choose|k: int|
                0 <= k < remove_image_seq(d, id).len() && remove_image_seq(d, id)[k] == r;
            assert(out[k] == r);
        } else {
            assert(s.last() == r);
            assert(remove_image_seq(s, id).last() == r);
        }
    }
}

/// Deleting an id returns a subset: every kept record comes from the input.
proof fn lemma_remove_image_subset(s: Seq<ImageModel>, id: Seq<char>)
    ensures
        forall|j: int|
            0 <= j < remove_image_seq(s, id).len() ==> s.contains(
                #[trigger] remove_image_seq(s, id)[j],
            ),
    decreases s.len(),
{
    reveal(Seq::filter);
    if s.len() > 0 {
        let d = s.drop_last();
        lemma_remove_image_subset(d, id);
        assert forall|j: int|
            0 <= j < remove_image_seq(s, id).len() implies s.contains(
            #[trigger] remove_image_seq(s, id)[j],
        ) by {
            if j < remove_image_seq(d, id).len() {
                assert(remove_image_seq(s, id)[j] == remove_image_seq(d, id)[j]);
                let i = choose|i: int| 0 <= i < d.len() && d[i] == remove_image_seq(d, id)[j];
                assert(s[i] == remove_image_seq(d, id)[j]);
            } else {
                assert(remove_image_seq(s, id)[j] == s.last());
            }
        }
    }
}

/// The removal phase keeps every record whose id no victim bears.
proof fn lemma_removal_phase_keeps_record(
    images: Seq<ImageModel>,
    paths: Seq<Seq<char>>,
    victims: Seq<ImageModel>,
    r: ImageModel,
)
    requires
        images.contains(r),
        forall|k: int| 0 <= k < victims.len() ==> (#[trigger] victims[k]).id != r.id,
    ensures
        removal_phase(images, paths, victims).0.contains(r),
    decreases victims.len(),
{
    if victims.len() > 0 {
        let d = victims.drop_last();
        lemma_removal_phase_keeps_record(images, paths, d, r);
        let p = removal_phase(images, paths, d);
        assert(victims[victims.len() - 1] == victims.last());
        lemma_remove_image_keeps(p.0, victims.last().id, r);
    }
}

/// The removal phase only ever drops records: every kept record comes from
/// the input.
proof fn lemma_removal_phase_subset(
    images: Seq<ImageModel>,
    paths: Seq<Seq<char>>,
    victims: Seq<ImageModel>,
)
    ensures
        forall|j: int|
            0 <= j < removal_phase(images, paths, victims).0.len() ==> images.contains(
                #[trigger] removal_phase(images, paths, victims).0[j],
            ),
    decreases victims.len(),
{
    if victims.len() > 0 {
        let d = victims.drop_last();
        lemma_removal_phase_subset(images, paths, d);
        let p = removal_phase(images, paths, d);
        lemma_remove_image_subset(p.0, victims.last().id);
        assert forall|j: int|
            0 <= j < removal_phase(images, paths, victims).0.len() implies images.contains(
            #[trigger] removal_phase(images, paths, victims).0[j],
        ) by {
            let out = removal_phase(images, paths, victims).0;
            assert(out == remove_image_seq(p.0, victims.last().id));
            assert(p.0.contains(out[j]));
            let i = choose|i: int| 0 <= i < p.0.len() && p.0[i] == out[j];
        }
    }
}

/// What the removal filter selects: records of the album, no longer listed
/// as remote images, taken from the store.
proof fn lemma_victims_props(images: Seq<ImageModel>, assets: Seq<AssetModel>, aid: Seq<char>)
    ensures
        forall|k: int|
            0 <= k < removal_victims(images, assets, aid).len() ==> {
                let v = #[trigger] removal_victims(images, assets, aid)[k];
                &&& images.contains(v)
                &&& v.album_id == aid
                &&& !remote_has_image(assets, v.id)
            },
    decreases images.len(),
{
    reveal(Seq::filter);
    if images.len() > 0 {
        let d = images.drop_last();
        lemma_victims_props(d, assets, aid);
        let out = removal_victims(images, assets, aid);
        let outd = removal_victims(d, assets, aid);
        assert forall|k: int|
            0 <= k < out.len() implies {
            let v = #[trigger] out[k];
            &&& images.contains(v)
            &&& v.album_id == aid
            &&& !remote_has_image(assets, v.id)
        } by {
            if k < outd.len() {
                assert(out[k] == outd[k]);
                let i = choose|i: int| 0 <= i < d.len() && d[i] == outd[k];
                assert(images[i] == outd[k]);
            } else {
                assert(out[k] == images.last());
                assert(images[images.len() - 1] == images.last());
            }
        }
    }
}

/// Records past `m` that the removal filter would never select do not
/// change what it selects.
proof fn lemma_victims_skip_false_tail(
    s: Seq<ImageModel>,
    m: int,
    assets: Seq<AssetModel>,
    aid: Seq<char>,
)
    requires
        0 <= m <= s.len(),
        forall|j: int|
            m <= j < s.len() ==> !((#[trigger] s[j]).album_id == aid && !remote_has_image(
                assets,
                s[j].id,
            )),
    ensures
        removal_victims(s, assets, aid) == removal_victims(s.take(m), assets, aid),
    decreases s.len() - m,
{
    reveal(Seq::filter);
    if m == s.len() {
        assert(s.take(m) =~= s);
    } else {
        let d = s.drop_last();
        assert(removal_victims(s, assets, aid) == removal_victims(d, assets, aid));
        assert(d.take(m) =~= s.take(m));
        lemma_victims_skip_false_tail(d, m, assets, aid);
    }
}

/// Two record lists that agree on which rows the removal filter selects —
/// and on those rows themselves — yield the same victims.
proof fn lemma_victims_pointwise(
    s1: Seq<ImageModel>,
    s2: Seq<ImageModel>,
    assets: Seq<AssetModel>,
    aid: Seq<char>,
)
    requires
        s1.len() == s2.len(),
        forall|j: int|
            0 <= j < s1.len() ==> (((#[trigger] s1[j]).album_id == aid && !remote_has_image(
                assets,
                s1[j].id,
            )) <==> ((#[trigger] s2[j]).album_id == aid && !remote_has_image(assets, s2[j].id))),
        forall|j: int|
            0 <= j < s1.len() && (#[trigger] s1[j]).album_id == aid && !remote_has_image(
                assets,
                s1[j].id,
            ) ==> s1[j] == s2[j],
    ensures
        removal_victims(s1, assets, aid) == removal_victims(s2, assets, aid),
    decreases s1.len(),
{
    reveal(Seq::filter);
    if s1.len() > 0 {
        let d1 = s1.drop_last();
        let d2 = s2.drop_last();
        assert forall|j: int| 0 <= j < d1.len() implies d1[j] == s1[j] && d2[j] == s2[j] by {}
        lemma_victims_pointwise(d1, d2, assets, aid);
        assert(s1[s1.len() - 1] == s1.last());
        assert(s2[s2.len() - 1] == s2.last());
    }
}

/// Downloading never changes which records the removal filter selects: every
/// record a download rewrites or adds bears an id the remote still lists.
proof fn lemma_victims_after_downloads(
    st: DownloadPhase,
    root: Seq<char>,
    aid: Seq<char>,
    plan: Seq<AssetModel>,
    outcomes: Seq<TransferOutcome>,
    assets: Seq<AssetModel>,
    now: i64,
)
    requires
        unique_image_ids(st.images),
        forall|k: int| 0 <= k < plan.len() ==> remote_has_image(assets, (#[trigger] plan[k]).id),
    ensures
        removal_victims(download_phase(st, root, aid, plan, outcomes, now).images, assets, aid)
            == removal_victims(st.images, assets, aid),
{
    lemma_download_phase_frame(st, root, aid, plan, outcomes, now);
    let dl = download_phase(st, root, aid, plan, outcomes, now);
    let n0 = st.images.len() as int;
    assert forall|j: int|
        n0 <= j < dl.images.len() implies !((#[trigger] dl.images[j]).album_id == aid
        && !remote_has_image(assets, dl.images[j].id)) by {
        assert(listed_asset_id(plan, dl.images[j].id));
        let k = choose|k: int| 0 <= k < plan.len() && plan[k].id == dl.images[j].id;
        assert(remote_has_image(assets, plan[k].id));
    }
    lemma_victims_skip_false_tail(dl.images, n0, assets, aid);
    let pre = dl.images.take(n0);
    assert forall|j: int|
        0 <= j < pre.len() implies (((#[trigger] pre[j]).album_id == aid && !remote_has_image(
        assets,
        pre[j].id,
    )) <==> ((#[trigger] st.images[j]).album_id == aid && !remote_has_image(
        assets,
        st.images[j].id,
    ))) && ((pre[j].album_id == aid && !remote_has_image(assets, pre[j].id)) ==> pre[j]
        == st.images[j]) by {
        assert(pre[j] == dl.images[j]);
        assert(dl.images[j].id == st.images[j].id);
        if listed_asset_id(plan, st.images[j].id) {
            let k = choose|k: int| 0 <= k < plan.len() && plan[k].id == st.images[j].id;
            assert(remote_has_image(assets, plan[k].id));
        } else {
            assert(dl.images[j] == st.images[j]);
        }
    }
    lemma_victims_pointwise(pre, st.images, assets, aid);
}

/// Syncing an album is idempotent: after a pass whose transfers all
/// succeeded, a second pass over the same album detail, with removal
/// disabled, downloads nothing, fails nothing, changes neither the records
/// nor the file tree, and keeps record ids unique — no duplicate records
/// arise. The album's asset ids must be distinct, as the remote assigns
/// them.
pub proof fn lemma_sync_album_idempotent(
    albums: Seq<crate::db::AlbumRecModel>,
    images: Seq<ImageModel>,
    paths: Seq<Seq<char>>,
    album: AlbumModel,
    transfers1: Seq<TransferOutcome>,
    transfers2: Seq<TransferOutcome>,
    root: Seq<char>,
    now1: i64,
    now2: i64,
)
    requires
        unique_image_ids(images),
        unique_asset_ids(album.assets),
        transfers1.len() == to_sync(album.assets, images).len(),
        forall|k: int| 0 <= k < transfers1.len() ==> (#[trigger] transfers1[k]) is Fetched,
    ensures
        ({
            let e1 = sync_album_effect(albums, images, paths, album, transfers1, root, false, now1);
            let e2 = sync_album_effect(
                e1.albums,
                e1.images,
                e1.paths,
                album,
                transfers2,
                root,
                false,
                now2,
            );
            &&& e2.downloaded == 0
            &&& e2.failed == 0
            &&& e2.images == e1.images
            &&& e2.paths == e1.paths
            &&& unique_image_ids(e1.images)
            &&& unique_image_ids(e2.images)
        }),
{
    let e1 = sync_album_effect(albums, images, paths, album, transfers1, root, false, now1);
    let plan1 = to_sync(album.assets, images);
    let init1 = DownloadPhase { images, paths, downloaded: 0, skipped: 0, failed: 0 };
    let dl1 = download_phase(init1, root, album.id, plan1, transfers1, now1);
    lemma_download_phase_frame(init1, root, album.id, plan1, transfers1, now1);
    lemma_download_phase_covers(init1, root, album.id, plan1, transfers1, now1);
    lemma_to_sync_elems(album.assets, images);
    assert(e1.images == dl1.images);
    assert(e1.paths == dl1.paths);

    let plan2 = to_sync(album.assets, e1.images);
    lemma_to_sync_elems(album.assets, e1.images);

    assert forall|k: int|
        0 <= k < plan2.len() implies has_path_seq(
        e1.paths,
        original_dest(root, album.id, (#[trigger] plan2[k]).original_file_name),
    ) by {
        let a = plan2[k];
        let q = choose|q: int| 0 <= q < album.assets.len() && album.assets[q] == a;
        if listed_asset_id(plan1, a.id) {
            let j = choose|j: int| 0 <= j < plan1.len() && plan1[j].id == a.id;
            let p = choose|p: int| 0 <= p < album.assets.len() && album.assets[p] == plan1[j];
            assert(album.assets[p].id == album.assets[q].id);
            assert(p == q);
            assert(plan1[j] == a);
            assert(has_path_seq(dl1.paths, original_dest(root, album.id, plan1[j].original_file_name)));
        } else {
            assert(wants_sync(e1.images, a));
            assert(!wants_sync(images, a)) by {
                if wants_sync(images, a) {
                    assert(plan1.contains(album.assets[q]));
                    let j = choose|j: int| 0 <= j < plan1.len() && plan1[j] == a;
                    assert(plan1[j].id == a.id);
                }
            }
            assert(a.is_image());
            assert(has_image(images, a.id));
            assert(!stale_in(images, a));
            let w = choose|w: int| 0 <= w < images.len() && images[w].id == a.id;
            assert(!listed_asset_id(plan1, images[w].id));
            assert(dl1.images[w] == images[w]);
            assert(has_image(dl1.images, a.id));
            assert(!stale_in(dl1.images, a)) by {
                if stale_in(dl1.images, a) {
                    let j = choose|j: int|
                        0 <= j < dl1.images.len() && dl1.images[j].id == a.id
                            && dl1.images[j].checksum != Some(a.checksum);
                    if j < images.len() {
                        assert(images[j].id == a.id);
                        assert(!listed_asset_id(plan1, images[j].id));
                        assert(dl1.images[j] == images[j]);
                        assert(images[j].checksum == Some(a.checksum));
                    } else {
                        assert(listed_asset_id(plan1, dl1.images[j].id));
                    }
                }
            }
            assert(!wants_sync(dl1.images, a));
            assert(false);
        }
    }

    let init2 = DownloadPhase {
        images: e1.images,
        paths: e1.paths,
        downloaded: 0,
        skipped: 0,
        failed: 0,
    };
    lemma_download_phase_all_present(init2, root, album.id, plan2, transfers2, now2);
    lemma_download_phase_frame(init2, root, album.id, plan2, transfers2, now2);
}

/// With removal enabled, syncing an album twice is still download-idempotent
/// — the second pass over the same album detail downloads nothing — provided
/// no record slated for removal stores a path that doubles as a destination
/// path of one of the album's assets: removing such a record's files would
/// delete an original the first pass relied on or produced.
pub proof fn lemma_sync_album_idempotent_with_removal(
    albums: Seq<crate::db::AlbumRecModel>,
    images: Seq<ImageModel>,
    paths: Seq<Seq<char>>,
    album: AlbumModel,
    transfers1: Seq<TransferOutcome>,
    transfers2: Seq<TransferOutcome>,
    root: Seq<char>,
    now1: i64,
    now2: i64,
)
    requires
        unique_image_ids(images),
        unique_asset_ids(album.assets),
        transfers1.len() == to_sync(album.assets, images).len(),
        forall|k: int| 0 <= k < transfers1.len() ==> (#[trigger] transfers1[k]) is Fetched,
        forall|k: int, j: int|
            0 <= k < removal_victims(images, album.assets, album.id).len() && 0 <= j
                < album.assets.len() ==> {
                let v = #[trigger] removal_victims(images, album.assets, album.id)[k];
                let dest = original_dest(
                    root,
                    album.id,
                    (#[trigger] album.assets[j]).original_file_name,
                );
                &&& v.original_path != Some(dest)
                &&& v.avif_path != Some(dest)
                &&& v.thumbnail_path != Some(dest)
            },
    ensures
        ({
            let e1 = sync_album_effect(albums, images, paths, album, transfers1, root, true, now1);
            let e2 = sync_album_effect(
                e1.albums,
                e1.images,
                e1.paths,
                album,
                transfers2,
                root,
                true,
                now2,
            );
            &&& e2.downloaded == 0
            &&& e2.failed == 0
        }),
{
    let aid = album.id;
    let assets = album.assets;
    let e1 = sync_album_effect(albums, images, paths, album, transfers1, root, true, now1);
    let plan1 = to_sync(assets, images);
    let init1 = DownloadPhase { images, paths, downloaded: 0, skipped: 0, failed: 0 };
    let dl1 = download_phase(init1, root, aid, plan1, transfers1, now1);
    lemma_download_phase_frame(init1, root, aid, plan1, transfers1, now1);
    lemma_download_phase_covers(init1, root, aid, plan1, transfers1, now1);
    lemma_to_sync_elems(assets, images);

    // every planned id is still listed remotely, so downloading keeps the
    // removal filter's choice fixed
    assert forall|k: int|
        0 <= k < plan1.len() implies remote_has_image(assets, (#[trigger] plan1[k]).id) by {
        let q = choose|q: int| 0 <= q < assets.len() && assets[q] == plan1[k];
        assert(assets[q].id == plan1[k].id && assets[q].is_image());
    }
    lemma_victims_after_downloads(init1, root, aid, plan1, transfers1, assets, now1);
    let victims = removal_victims(dl1.images, assets, aid);
    assert(victims == removal_victims(images, assets, aid));
    lemma_victims_props(dl1.images, assets, aid);
    let fin = removal_phase(dl1.images, dl1.paths, victims);
    assert(e1.images == fin.0);
    assert(e1.paths == fin.1);
    lemma_removal_phase_subset(dl1.images, dl1.paths, victims);

    let plan2 = to_sync(assets, e1.images);
    lemma_to_sync_elems(assets, e1.images);

    assert forall|k: int|
        0 <= k < plan2.len() implies has_path_seq(
        e1.paths,
        original_dest(root, aid, (#[trigger] plan2[k]).original_file_name),
    ) by {
        let a = plan2[k];
        let q = choose|q: int| 0 <= q < assets.len() && assets[q] == a;
        assert(wants_sync(e1.images, a));
        assert(remote_has_image(assets, a.id)) by {
            assert(assets[q].id == a.id && assets[q].is_image());
        }

        // the second pass wants this asset, so the first already did
        assert(wants_sync(dl1.images, a)) by {
            if stale_in(e1.images, a) {
                let j = choose|j: int|
                    0 <= j < e1.images.len() && e1.images[j].id == a.id && e1.images[j].checksum
                        != Some(a.checksum);
                assert(dl1.images.contains(e1.images[j]));
                let i = choose|i: int| 0 <= i < dl1.images.len() && dl1.images[i] == e1.images[j];
                assert(stale_in(dl1.images, a));
            } else {
                assert(!has_image(e1.images, a.id));
                if has_image(dl1.images, a.id) {
                    let w = choose|w: int| 0 <= w < dl1.images.len() && dl1.images[w].id == a.id;
                    let rec = dl1.images[w];
                    assert(dl1.images.contains(rec));
                    assert forall|t: int|
                        0 <= t < victims.len() implies (#[trigger] victims[t]).id != rec.id by {
                        assert(!remote_has_image(assets, victims[t].id));
                    }
                    lemma_removal_phase_keeps_record(dl1.images, dl1.paths, victims, rec);
                    let w2 = choose|w2: int| 0 <= w2 < e1.images.len() && e1.images[w2] == rec;
                    assert(has_image(e1.images, a.id));
                }
            }
        }

        // so the first pass placed or found the destination file
        if listed_asset_id(plan1, a.id) {
            let j = choose|j: int| 0 <= j < plan1.len() && plan1[j].id == a.id;
            let p = choose|p: int| 0 <= p < assets.len() && assets[p] == plan1[j];
            assert(assets[p].id == assets[q].id);
            assert(p == q);
            assert(plan1[j] == a);
            assert(has_path_seq(dl1.paths, original_dest(root, aid, plan1[j].original_file_name)));
        } else {
            assert(!wants_sync(images, a)) by {
                if wants_sync(images, a) {
                    assert(plan1.contains(assets[q]));
                    let j = choose|j: int| 0 <= j < plan1.len() && plan1[j] == a;
                    assert(plan1[j].id == a.id);
                }
            }
            assert(has_image(images, a.id));
            assert(!stale_in(images, a));
            assert(!stale_in(dl1.images, a)) by {
                if stale_in(dl1.images, a) {
                    let j = choose|j: int|
                        0 <= j < dl1.images.len() && dl1.images[j].id == a.id
                            && dl1.images[j].checksum != Some(a.checksum);
                    if j < images.len() {
                        assert(images[j].id == a.id);
                        assert(!listed_asset_id(plan1, images[j].id));
                        assert(dl1.images[j] == images[j]);
                        assert(images[j].checksum == Some(a.checksum));
                    } else {
                        assert(listed_asset_id(plan1, dl1.images[j].id));
                    }
                }
            }
            let w = choose|w: int| 0 <= w < images.len() && images[w].id == a.id;
            assert(!listed_asset_id(plan1, images[w].id));
            assert(dl1.images[w] == images[w]);
            assert(has_image(dl1.images, a.id));
            assert(!wants_sync(dl1.images, a));
            assert(false);
        }

        // and removal spared it: no victim stored this destination
        let dest = original_dest(root, aid, a.original_file_name);
        assert forall|t: int|
            0 <= t < victims.len() implies (#[trigger] victims[t]).original_path != Some(dest)
                && victims[t].avif_path != Some(dest) && victims[t].thumbnail_path != Some(
                dest,
            ) by {
            assert(removal_victims(images, assets, aid)[t] == victims[t]);
            assert(original_dest(root, aid, (assets[q]).original_file_name) == dest);
        }
        lemma_removal_phase_keeps_path(dl1.images, dl1.paths, victims, dest);
    }

    let init2 = DownloadPhase {
        images: e1.images,
        paths: e1.paths,
        downloaded: 0,
        skipped: 0,
        failed: 0,
    };
    lemma_download_phase_all_present(init2, root, aid, plan2, transfers2, now2);
}

/// The whole effect of one run over every visible album.
pub ghost struct SyncAllEffect {
    pub albums: Seq<crate::db::AlbumRecModel>,
    pub images: Seq<ImageModel>,
    pub paths: Seq<Seq<char>>,
    pub downloaded: nat,
    pub skipped: nat,
    pub failed: nat,
    pub removed: nat,
}

/// One album of a run, as the outside answered: the fetched album detail
/// together with the per-asset transfer outcomes its pass consumed.
pub struct AlbumSync {
    pub album: AlbumResponse,
    pub transfers: Vec<TransferOutcome>,
}

/// Mathematical model of an [`AlbumSync`].
pub ghost struct AlbumSyncModel {
    pub album: AlbumModel,
    pub transfers: Seq<TransferOutcome>,
}

impl View for AlbumSync {
    type V = AlbumSyncModel;

    open spec fn view(&self) -> AlbumSyncModel {
        AlbumSyncModel { album: self.album@, transfers: self.transfers@ }
    }
}

impl DeepView for AlbumSync {
    type V = AlbumSyncModel;

    open spec fn deep_view(&self) -> AlbumSyncModel {
        self.view()
    }
}

/// One run as a function over the album details that could be fetched, in
/// listing order: each fetched album passes through [`sync_album_effect`]
/// with its transfer outcomes and its counts accumulate; an album whose
/// detail could not be fetched counts one failure and touches nothing — one
/// album's error never aborts the run.
pub open spec fn sync_all_effect(
    albums: Seq<crate::db::AlbumRecModel>,
    images: Seq<ImageModel>,
    paths: Seq<Seq<char>>,
    fetched: Seq<Option<AlbumSyncModel>>,
    root: Seq<char>,
    delete_removed: bool,
    now: i64,
) -> SyncAllEffect
    decreases fetched.len(),
{
    if fetched.len() == 0 {
        SyncAllEffect { albums, images, paths, downloaded: 0, skipped: 0, failed: 0, removed: 0 }
    } else {
        let p = sync_all_effect(albums, images, paths, fetched.drop_last(), root, delete_removed, now);
        match fetched.last() {
            Some(e) => {
                let eff = sync_album_effect(
                    p.albums,
                    p.images,
                    p.paths,
                    e.album,
                    e.transfers,
                    root,
                    delete_removed,
                    now,
                );
                SyncAllEffect {
                    albums: eff.albums,
                    images: eff.images,
                    paths: eff.paths,
                    downloaded: p.downloaded + eff.downloaded,
                    skipped: p.skipped + eff.skipped,
                    failed: p.failed + eff.failed,
                    removed: p.removed + eff.removed,
                }
            },
            None => SyncAllEffect {
                albums: p.albums,
                images: p.images,
                paths: p.paths,
                downloaded: p.downloaded,
                skipped: p.skipped,
                failed: p.failed + 1,
                removed: p.removed,
            },
        }
    }
}

/// Each fetched album carries one transfer outcome per asset its pass plans
/// against the store as it stands at that point of the run.
pub open spec fn transfers_sized(
    albums: Seq<crate::db::AlbumRecModel>,
    images: Seq<ImageModel>,
    paths: Seq<Seq<char>>,
    fetched: Seq<Option<AlbumSyncModel>>,
    root: Seq<char>,
    delete_removed: bool,
    now: i64,
) -> bool
    decreases fetched.len(),
{
    if fetched.len() == 0 {
        true
    } else {
        let p = sync_all_effect(albums, images, paths, fetched.drop_last(), root, delete_removed, now);
        &&& transfers_sized(albums, images, paths, fetched.drop_last(), root, delete_removed, now)
        &&& match fetched.last() {
            Some(e) => e.transfers.len() == to_sync(e.album.assets, p.images).len(),
            None => true,
        }
    }
}

/// The sizing condition of a run restricts to every prefix of it.
proof fn lemma_transfers_sized_prefix(
    albums: Seq<crate::db::AlbumRecModel>,
    images: Seq<ImageModel>,
    paths: Seq<Seq<char>>,
    fetched: Seq<Option<AlbumSyncModel>>,
    root: Seq<char>,
    delete_removed: bool,
    now: i64,
    i: int,
)
    requires
        0 <= i <= fetched.len(),
        transfers_sized(albums, images, paths, fetched, root, delete_removed, now),
    ensures
        transfers_sized(albums, images, paths, fetched.take(i), root, delete_removed, now),
    decreases fetched.len() - i,
{
    if i == fetched.len() {
        assert(fetched.take(i) =~= fetched);
    } else {
        lemma_transfers_sized_prefix(albums, images, paths, fetched, root, delete_removed, now, i + 1);
        assert(fetched.take(i + 1).drop_last() =~= fetched.take(i));
    }
}

/// The counts of a run over a prefix never exceed the counts of the whole
/// run.
proof fn lemma_sync_all_prefix_counts(
    albums: Seq<crate::db::AlbumRecModel>,
    images: Seq<ImageModel>,
    paths: Seq<Seq<char>>,
    fetched: Seq<Option<AlbumSyncModel>>,
    root: Seq<char>,
    delete_removed: bool,
    now: i64,
    i: int,
)
    requires
        0 <= i <= fetched.len(),
    ensures
        ({
            let part = sync_all_effect(albums, images, paths, fetched.take(i), root, delete_removed, now);
            let whole = sync_all_effect(albums, images, paths, fetched, root, delete_removed, now);
            &&& part.downloaded <= whole.downloaded
            &&& part.skipped <= whole.skipped
            &&& part.failed <= whole.failed
            &&& part.removed <= whole.removed
        }),
    decreases fetched.len() - i,
{
    if i == fetched.len() {
        assert(fetched.take(i) =~= fetched);
    } else {
        lemma_sync_all_prefix_counts(albums, images, paths, fetched, root, delete_removed, now, i + 1);
        assert(fetched.take(i + 1).drop_last() =~= fetched.take(i));
        assert(fetched.take(i + 1).last() == fetched[i]);
    }
}

impl SyncService {
    /// One run: every album whose detail was fetched is synced in listing
    /// order with its transfer outcomes, counts accumulate, and an album
    /// whose detail could not be fetched counts one failure without aborting
    /// the run. The listing itself comes deduplicated from
    /// [`crate::client::merge_albums`].
    pub fn sync_all(&self, store: &mut StateStore, disk: &mut Disk, fetched: &Vec<Option<AlbumSync>>, now: i64) -> (r:
        SyncResult)
        requires
            old(store).wf(),
            transfers_sized(
                old(store).albums_model(),
                old(store).images_model(),
                old(disk).paths(),
                fetched.deep_view(),
                joined_path(self.config.storage.base_path@, self.config.storage.original_dir@),
                self.config.sync.delete_removed,
                now,
            ),
            ({
                let whole = sync_all_effect(
                    old(store).albums_model(),
                    old(store).images_model(),
                    old(disk).paths(),
                    fetched.deep_view(),
                    joined_path(self.config.storage.base_path@, self.config.storage.original_dir@),
                    self.config.sync.delete_removed,
                    now,
                );
                &&& whole.downloaded <= usize::MAX
                &&& whole.skipped <= usize::MAX
                &&& whole.failed <= usize::MAX
                &&& whole.removed <= usize::MAX
            }),
        ensures
            final(store).wf(),
            ({
                let whole = sync_all_effect(
                    old(store).albums_model(),
                    old(store).images_model(),
                    old(disk).paths(),
                    fetched.deep_view(),
                    joined_path(self.config.storage.base_path@, self.config.storage.original_dir@),
                    self.config.sync.delete_removed,
                    now,
                );
                &&& final(store).albums_model() == whole.albums
                &&& final(store).images_model() == whole.images
                &&& final(disk).paths() == whole.paths
                &&& r.downloaded == whole.downloaded
                &&& r.skipped == whole.skipped
                &&& r.failed == whole.failed
                &&& r.removed == whole.removed
            }),
    {
        let ghost albums0 = store.albums_model();
        let ghost images0 = store.images_model();
        let ghost paths0 = disk.paths();
        let ghost fm = fetched.deep_view();
        let ghost rootv = joined_path(self.config.storage.base_path@, self.config.storage.original_dir@);
        let ghost del = self.config.sync.delete_removed;

        let mut downloaded: usize = 0;
        let mut skipped: usize = 0;
        let mut failed: usize = 0;
        let mut removed: usize = 0;
        let n = fetched.len();
        let mut i: usize = 0;
        while i < n
            invariant
                0 <= i <= n,
                n == fetched@.len(),
                fm == fetched.deep_view(),
                rootv == joined_path(self.config.storage.base_path@, self.config.storage.original_dir@),
                del == self.config.sync.delete_removed,
                store.wf(),
                transfers_sized(albums0, images0, paths0, fm, rootv, del, now),
                ({
                    let part = sync_all_effect(albums0, images0, paths0, fm.take(i as int), rootv, del, now);
                    let whole = sync_all_effect(albums0, images0, paths0, fm, rootv, del, now);
                    &&& store.albums_model() == part.albums
                    &&& store.images_model() == part.images
                    &&& disk.paths() == part.paths
                    &&& downloaded == part.downloaded
                    &&& skipped == part.skipped
                    &&& failed == part.failed
                    &&& removed == part.removed
                    &&& whole.downloaded <= usize::MAX
                    &&& whole.skipped <= usize::MAX
                    &&& whole.failed <= usize::MAX
                    &&& whole.removed <= usize::MAX
                }),
            decreases n - i,
        {
            let ghost part = sync_all_effect(albums0, images0, paths0, fm.take(i as int), rootv, del, now);
            proof {
                assert(fm.take(i + 1).drop_last() =~= fm.take(i as int));
                assert(fm.take(i + 1).last() == fm[i as int]);
                lemma_sync_all_prefix_counts(albums0, images0, paths0, fm, rootv, del, now, i + 1);
                lemma_transfers_sized_prefix(albums0, images0, paths0, fm, rootv, del, now, i + 1);
            }
            match &fetched[i] {
                Some(entry) => {
                    proof {
                        assert(fm[i as int] == Some(entry@));
                    }
                    let res = self.sync_album(store, disk, &entry.album, &entry.transfers, now);
                    downloaded = downloaded + res.downloaded;
                    skipped = skipped + res.skipped;
                    failed = failed + res.failed;
                    removed = removed + res.removed;
                },
                None => {
                    proof {
                        assert(fm[i as int] is None);
                    }
                    failed = failed + 1;
                },
            }
            i = i + 1;
        }
        proof {
            assert(fm.take(n as int) =~= fm);
        }
        SyncResult { downloaded, skipped, failed, removed }
    }
}

} // verus!
