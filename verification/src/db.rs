//! The durable state store: albums and per-asset records, keyed by their
//! remote-assigned ids. The store is modelled as two sequences of records
//! whose ids are unique; every mutation is a single atomic record operation,
//! exactly as the engines rely on.

use vstd::prelude::*;
use vstd::seq_lib::lemma_multiset_commutative;
use crate::util::{clone_opt_string, lemma_seq_le_total, lemma_seq_le_trans, seq_le, str_eq, str_le};

verus! {

/// One album known to the store.
pub struct Album {
    pub id: String,
    pub name: String,
    pub asset_count: Option<i64>,
    pub last_sync: Option<i64>,
}

/// Mathematical model of an [`Album`] row.
pub ghost struct AlbumRecModel {
    pub id: Seq<char>,
    pub name: Seq<char>,
    pub asset_count: Option<i64>,
    pub last_sync: Option<i64>,
}

impl View for Album {
    type V = AlbumRecModel;

    open spec fn view(&self) -> AlbumRecModel {
        AlbumRecModel {
            id: self.id@,
            name: self.name@,
            asset_count: self.asset_count,
            last_sync: self.last_sync,
        }
    }
}

impl DeepView for Album {
    type V = AlbumRecModel;

    open spec fn deep_view(&self) -> AlbumRecModel {
        self.view()
    }
}

impl Album {
    /// A copy of this row, with the same model.
    pub fn clone_rec(&self) -> (r: Album)
        ensures
            r@ == self@,
    {
        Album {
            id: self.id.clone(),
            name: self.name.clone(),
            asset_count: self.asset_count,
            last_sync: self.last_sync,
        }
    }
}

/// The local mirror record of one remote image asset, together with its
/// conversion status.
pub struct SyncedImage {
    pub id: String,
    pub album_id: String,
    pub filename: String,
    pub checksum: Option<String>,
    pub original_path: Option<String>,
    pub avif_path: Option<String>,
    pub thumbnail_path: Option<String>,
    pub file_size: Option<i64>,
    pub synced_at: Option<i64>,
    pub converted_at: Option<i64>,
}

/// Mathematical model of a [`SyncedImage`] row.
pub ghost struct ImageModel {
    pub id: Seq<char>,
    pub album_id: Seq<char>,
    pub filename: Seq<char>,
    pub checksum: Option<Seq<char>>,
    pub original_path: Option<Seq<char>>,
    pub avif_path: Option<Seq<char>>,
    pub thumbnail_path: Option<Seq<char>>,
    pub file_size: Option<i64>,
    pub synced_at: Option<i64>,
    pub converted_at: Option<i64>,
}

impl View for SyncedImage {
    type V = ImageModel;

    open spec fn view(&self) -> ImageModel {
        ImageModel {
            id: self.id@,
            album_id: self.album_id@,
            filename: self.filename@,
            checksum: self.checksum.deep_view(),
            original_path: self.original_path.deep_view(),
            avif_path: self.avif_path.deep_view(),
            thumbnail_path: self.thumbnail_path.deep_view(),
            file_size: self.file_size,
            synced_at: self.synced_at,
            converted_at: self.converted_at,
        }
    }
}

impl DeepView for SyncedImage {
    type V = ImageModel;

    open spec fn deep_view(&self) -> ImageModel {
        self.view()
    }
}

impl SyncedImage {
    /// A copy of this row, with the same model.
    pub fn clone_rec(&self) -> (r: SyncedImage)
        ensures
            r@ == self@,
    {
        SyncedImage {
            id: self.id.clone(),
            album_id: self.album_id.clone(),
            filename: self.filename.clone(),
            checksum: clone_opt_string(&self.checksum),
            original_path: clone_opt_string(&self.original_path),
            avif_path: clone_opt_string(&self.avif_path),
            thumbnail_path: clone_opt_string(&self.thumbnail_path),
            file_size: self.file_size,
            synced_at: self.synced_at,
            converted_at: self.converted_at,
        }
    }
}

impl ImageModel {
    /// The record is eligible for conversion: its original has been
    /// downloaded, and either it has never been fully converted or it
    /// predates thumbnails.
    pub open spec fn is_unconverted(self) -> bool {
        self.original_path is Some && (self.converted_at is None || self.thumbnail_path is None)
    }

    /// The record is eligible for serving: a converted derivative exists.
    pub open spec fn is_converted(self) -> bool {
        self.avif_path is Some
    }
}

/// A store-wide id is present among the albums.
pub open spec fn has_album(s: Seq<AlbumRecModel>, id: Seq<char>) -> bool {
    exists|i: int| 0 <= i < s.len() && #[trigger] s[i].id == id
}

/// A store-wide id is present among the image records.
pub open spec fn has_image(s: Seq<ImageModel>, id: Seq<char>) -> bool {
    exists|i: int| 0 <= i < s.len() && #[trigger] s[i].id == id
}

/// No two albums share an id.
pub open spec fn unique_album_ids(s: Seq<AlbumRecModel>) -> bool {
    forall|i: int, j: int| 0 <= i < j < s.len() ==> #[trigger] s[i].id != #[trigger] s[j].id
}

/// No two image records share an id.
pub open spec fn unique_image_ids(s: Seq<ImageModel>) -> bool {
    forall|i: int, j: int| 0 <= i < j < s.len() ==> #[trigger] s[i].id != #[trigger] s[j].id
}

/// The album row an upsert writes: every field is replaced and the sync
/// time stamped.
pub open spec fn album_row(id: Seq<char>, name: Seq<char>, asset_count: i64, now: i64) -> AlbumRecModel {
    AlbumRecModel { id, name, asset_count: Some(asset_count), last_sync: Some(now) }
}

/// Upsert of an album row: replaces the row with the same id, or appends.
pub open spec fn upsert_album_seq(s: Seq<AlbumRecModel>, rec: AlbumRecModel) -> Seq<AlbumRecModel> {
    if has_album(s, rec.id) {
        s.map_values(|r: AlbumRecModel| if r.id == rec.id { rec } else { r })
    } else {
        s.push(rec)
    }
}

/// The image row an upsert writes when the id was not yet known: the sync
/// fields are set and the conversion fields empty.
pub open spec fn image_row(
    id: Seq<char>,
    album_id: Seq<char>,
    filename: Seq<char>,
    checksum: Option<Seq<char>>,
    original_path: Option<Seq<char>>,
    file_size: Option<i64>,
    now: i64,
) -> ImageModel {
    ImageModel {
        id,
        album_id,
        filename,
        checksum,
        original_path,
        avif_path: None,
        thumbnail_path: None,
        converted_at: None,
        file_size,
        synced_at: Some(now),
    }
}

/// An upsert over an existing row replaces the sync fields and keeps the
/// conversion fields.
pub open spec fn apply_sync_fields(r: ImageModel, u: ImageModel) -> ImageModel {
    ImageModel {
        id: u.id,
        album_id: u.album_id,
        filename: u.filename,
        checksum: u.checksum,
        original_path: u.original_path,
        file_size: u.file_size,
        synced_at: u.synced_at,
        avif_path: r.avif_path,
        thumbnail_path: r.thumbnail_path,
        converted_at: r.converted_at,
    }
}

/// Upsert of an image row `u`: merges into the row with the same id, or
/// appends.
pub open spec fn upsert_image_seq(s: Seq<ImageModel>, u: ImageModel) -> Seq<ImageModel> {
    if has_image(s, u.id) {
        s.map_values(|r: ImageModel| if r.id == u.id { apply_sync_fields(r, u) } else { r })
    } else {
        s.push(u)
    }
}

/// A record after conversion succeeded: both derivative paths and the
/// conversion time are set.
pub open spec fn converted_row(r: ImageModel, avif: Seq<char>, thumb: Seq<char>, now: i64) -> ImageModel {
    ImageModel {
        avif_path: Some(avif),
        thumbnail_path: Some(thumb),
        converted_at: Some(now),
        id: r.id,
        album_id: r.album_id,
        filename: r.filename,
        checksum: r.checksum,
        original_path: r.original_path,
        file_size: r.file_size,
        synced_at: r.synced_at,
    }
}

/// Marking one id converted rewrites exactly the rows bearing that id.
pub open spec fn mark_converted_seq(
    s: Seq<ImageModel>,
    id: Seq<char>,
    avif: Seq<char>,
    thumb: Seq<char>,
    now: i64,
) -> Seq<ImageModel> {
    s.map_values(|r: ImageModel| if r.id == id { converted_row(r, avif, thumb, now) } else { r })
}

/// Deleting an id keeps every row that does not bear it.
pub open spec fn remove_image_seq(s: Seq<ImageModel>, id: Seq<char>) -> Seq<ImageModel> {
    s.filter(|r: ImageModel| r.id != id)
}

/// A record with its conversion fields cleared, forcing reconversion.
pub open spec fn cleared_row(r: ImageModel) -> ImageModel {
    ImageModel {
        avif_path: None,
        thumbnail_path: None,
        converted_at: None,
        id: r.id,
        album_id: r.album_id,
        filename: r.filename,
        checksum: r.checksum,
        original_path: r.original_path,
        file_size: r.file_size,
        synced_at: r.synced_at,
    }
}

/// All records with conversion fields cleared.
pub open spec fn clear_conversions_seq(s: Seq<ImageModel>) -> Seq<ImageModel> {
    s.map_values(|r: ImageModel| cleared_row(r))
}

/// The records of one album that are eligible for conversion.
pub open spec fn unconverted_images(s: Seq<ImageModel>) -> Seq<ImageModel> {
    s.filter(|r: ImageModel| r.is_unconverted())
}

/// The records filed under one album.
pub open spec fn album_images(s: Seq<ImageModel>, album_id: Seq<char>) -> Seq<ImageModel> {
    s.filter(|r: ImageModel| r.album_id == album_id)
}

/// The converted records filed under one album.
pub open spec fn album_converted_images(s: Seq<ImageModel>, album_id: Seq<char>) -> Seq<ImageModel> {
    s.filter(|r: ImageModel| r.album_id == album_id && r.is_converted())
}

/// The ids of all known image records, in store order.
pub open spec fn image_ids(s: Seq<ImageModel>) -> Seq<Seq<char>> {
    s.map_values(|r: ImageModel| r.id)
}

/// An album row placed into a name-sorted list: before the first row whose
/// name is strictly greater, after every row whose name is not.
pub open spec fn insert_by_name(s: Seq<AlbumRecModel>, a: AlbumRecModel) -> Seq<AlbumRecModel>
    decreases s.len(),
{
    if s.len() == 0 {
        seq![a]
    } else if seq_le(s[0].name, a.name) {
        seq![s[0]] + insert_by_name(s.skip(1), a)
    } else {
        seq![a] + s
    }
}

/// Album rows sorted by name, equal names keeping their order.
pub open spec fn sort_by_name(s: Seq<AlbumRecModel>) -> Seq<AlbumRecModel>
    decreases s.len(),
{
    if s.len() == 0 {
        s
    } else {
        insert_by_name(sort_by_name(s.drop_last()), s.last())
    }
}

/// An image row placed into a filename-sorted list: before the first row
/// whose filename is strictly greater, after every row whose filename is
/// not.
pub open spec fn insert_by_filename(s: Seq<ImageModel>, r: ImageModel) -> Seq<ImageModel>
    decreases s.len(),
{
    if s.len() == 0 {
        seq![r]
    } else if seq_le(s[0].filename, r.filename) {
        seq![s[0]] + insert_by_filename(s.skip(1), r)
    } else {
        seq![r] + s
    }
}

/// Image rows sorted by filename, equal filenames keeping their order.
pub open spec fn sort_by_filename(s: Seq<ImageModel>) -> Seq<ImageModel>
    decreases s.len(),
{
    if s.len() == 0 {
        s
    } else {
        insert_by_filename(sort_by_filename(s.drop_last()), s.last())
    }
}

/// The album rows stand in name order.
pub open spec fn albums_sorted_by_name(s: Seq<AlbumRecModel>) -> bool {
    forall|i: int, j: int|
        0 <= i < j < s.len() ==> seq_le(#[trigger] s[i].name, #[trigger] s[j].name)
}

/// The image rows stand in filename order.
pub open spec fn images_sorted_by_filename(s: Seq<ImageModel>) -> bool {
    forall|i: int, j: int|
        0 <= i < j < s.len() ==> seq_le(#[trigger] s[i].filename, #[trigger] s[j].filename)
}

/// Inserting into a name-sorted list keeps it sorted and adds exactly the
/// new row.
proof fn lemma_insert_by_name_props(s: Seq<AlbumRecModel>, a: AlbumRecModel)
    requires
        albums_sorted_by_name(s),
    ensures
        albums_sorted_by_name(insert_by_name(s, a)),
        insert_by_name(s, a).to_multiset() == s.to_multiset().insert(a),
    decreases s.len(),
{
    broadcast use vstd::seq_lib::group_to_multiset_ensures;
    broadcast use vstd::multiset::group_multiset_axioms;

    let out = insert_by_name(s, a);
    if s.len() == 0 {
        assert(out =~= s.push(a));
    } else if seq_le(s[0].name, a.name) {
        let d = s.skip(1);
        assert(albums_sorted_by_name(d)) by {
            assert forall|i: int, j: int|
                0 <= i < j < d.len() implies seq_le(
                (#[trigger] d[i]).name,
                (#[trigger] d[j]).name,
            ) by {
                assert(d[i] == s[i + 1]);
                assert(d[j] == s[j + 1]);
            }
        }
        lemma_insert_by_name_props(d, a);
        let inner = insert_by_name(d, a);
        lemma_multiset_commutative(seq![s[0]], inner);
        lemma_multiset_commutative(seq![s[0]], d);
        assert(s =~= seq![s[0]] + d);
        assert(seq![s[0]] =~= Seq::<AlbumRecModel>::empty().push(s[0]));
        assert(out.to_multiset() =~= s.to_multiset().insert(a));
        assert forall|i: int, j: int|
            0 <= i < j < out.len() implies seq_le(
            (#[trigger] out[i]).name,
            (#[trigger] out[j]).name,
        ) by {
            if i == 0 {
                let x = out[j];
                assert(inner[j - 1] == x);
                assert(inner.contains(x));
                assert(inner.to_multiset().count(x) > 0);
                if x == a {
                } else {
                    assert(d.to_multiset().count(x) > 0);
                    assert(d.contains(x));
                    let m = choose|m: int| 0 <= m < d.len() && d[m] == x;
                    assert(s[m + 1] == x);
                }
            } else {
                assert(out[i] == inner[i - 1]);
                assert(out[j] == inner[j - 1]);
            }
        }
    } else {
        lemma_seq_le_total(s[0].name, a.name);
        assert(out =~= seq![a] + s);
        lemma_multiset_commutative(seq![a], s);
        assert(seq![a] =~= Seq::<AlbumRecModel>::empty().push(a));
        assert(out.to_multiset() =~= s.to_multiset().insert(a));
        assert forall|i: int, j: int|
            0 <= i < j < out.len() implies seq_le(
            (#[trigger] out[i]).name,
            (#[trigger] out[j]).name,
        ) by {
            if i == 0 {
                assert(out[j] == s[j - 1]);
                if j - 1 > 0 {
                    lemma_seq_le_trans(a.name, s[0].name, s[j - 1].name);
                }
            } else {
                assert(out[i] == s[i - 1]);
                assert(out[j] == s[j - 1]);
            }
        }
    }
}

/// Inserting into a filename-sorted list keeps it sorted and adds exactly
/// the new row.
proof fn lemma_insert_by_filename_props(s: Seq<ImageModel>, r: ImageModel)
    requires
        images_sorted_by_filename(s),
    ensures
        images_sorted_by_filename(insert_by_filename(s, r)),
        insert_by_filename(s, r).to_multiset() == s.to_multiset().insert(r),
    decreases s.len(),
{
    broadcast use vstd::seq_lib::group_to_multiset_ensures;
    broadcast use vstd::multiset::group_multiset_axioms;

    let out = insert_by_filename(s, r);
    if s.len() == 0 {
        assert(out =~= s.push(r));
    } else if seq_le(s[0].filename, r.filename) {
        let d = s.skip(1);
        assert(images_sorted_by_filename(d)) by {
            assert forall|i: int, j: int|
                0 <= i < j < d.len() implies seq_le(
                (#[trigger] d[i]).filename,
                (#[trigger] d[j]).filename,
            ) by {
                assert(d[i] == s[i + 1]);
                assert(d[j] == s[j + 1]);
            }
        }
        lemma_insert_by_filename_props(d, r);
        let inner = insert_by_filename(d, r);
        lemma_multiset_commutative(seq![s[0]], inner);
        lemma_multiset_commutative(seq![s[0]], d);
        assert(s =~= seq![s[0]] + d);
        assert(seq![s[0]] =~= Seq::<ImageModel>::empty().push(s[0]));
        assert(out.to_multiset() =~= s.to_multiset().insert(r));
        assert forall|i: int, j: int|
            0 <= i < j < out.len() implies seq_le(
            (#[trigger] out[i]).filename,
            (#[trigger] out[j]).filename,
        ) by {
            if i == 0 {
                let x = out[j];
                assert(inner[j - 1] == x);
                assert(inner.contains(x));
                assert(inner.to_multiset().count(x) > 0);
                if x == r {
                } else {
                    assert(d.to_multiset().count(x) > 0);
                    assert(d.contains(x));
                    let m = choose|m: int| 0 <= m < d.len() && d[m] == x;
                    assert(s[m + 1] == x);
                }
            } else {
                assert(out[i] == inner[i - 1]);
                assert(out[j] == inner[j - 1]);
            }
        }
    } else {
        lemma_seq_le_total(s[0].filename, r.filename);
        assert(out =~= seq![r] + s);
        lemma_multiset_commutative(seq![r], s);
        assert(seq![r] =~= Seq::<ImageModel>::empty().push(r));
        assert(out.to_multiset() =~= s.to_multiset().insert(r));
        assert forall|i: int, j: int|
            0 <= i < j < out.len() implies seq_le(
            (#[trigger] out[i]).filename,
            (#[trigger] out[j]).filename,
        ) by {
            if i == 0 {
                assert(out[j] == s[j - 1]);
                if j - 1 > 0 {
                    lemma_seq_le_trans(r.filename, s[0].filename, s[j - 1].filename);
                }
            } else {
                assert(out[i] == s[i - 1]);
                assert(out[j] == s[j - 1]);
            }
        }
    }
}

/// Sorting albums by name yields exactly the same rows with the same
/// multiplicities, standing in name order.
pub proof fn lemma_sort_by_name_sorted(s: Seq<AlbumRecModel>)
    ensures
        albums_sorted_by_name(sort_by_name(s)),
        sort_by_name(s).to_multiset() == s.to_multiset(),
        sort_by_name(s).len() == s.len(),
    decreases s.len(),
{
    broadcast use vstd::seq_lib::group_to_multiset_ensures;
    broadcast use vstd::multiset::group_multiset_axioms;

    if s.len() > 0 {
        let d = s.drop_last();
        lemma_sort_by_name_sorted(d);
        lemma_insert_by_name_props(sort_by_name(d), s.last());
        assert(s =~= d.push(s.last()));
        assert(sort_by_name(s).to_multiset() =~= s.to_multiset());
        assert(sort_by_name(s).to_multiset().len() == sort_by_name(s).len());
    }
}

/// Sorting image rows by filename yields exactly the same rows with the same
/// multiplicities, standing in filename order.
pub proof fn lemma_sort_by_filename_sorted(s: Seq<ImageModel>)
    ensures
        images_sorted_by_filename(sort_by_filename(s)),
        sort_by_filename(s).to_multiset() == s.to_multiset(),
        sort_by_filename(s).len() == s.len(),
    decreases s.len(),
{
    broadcast use vstd::seq_lib::group_to_multiset_ensures;
    broadcast use vstd::multiset::group_multiset_axioms;

    if s.len() > 0 {
        let d = s.drop_last();
        lemma_sort_by_filename_sorted(d);
        lemma_insert_by_filename_props(sort_by_filename(d), s.last());
        assert(s =~= d.push(s.last()));
        assert(sort_by_filename(s).to_multiset() =~= s.to_multiset());
        assert(sort_by_filename(s).to_multiset().len() == sort_by_filename(s).len());
    }
}

/// Where [`insert_by_name`] places the row: at the first index whose name
/// is strictly greater than the new row's.
proof fn lemma_insert_by_name_at(s: Seq<AlbumRecModel>, a: AlbumRecModel, k: int)
    requires
        0 <= k <= s.len(),
        forall|j: int| 0 <= j < k ==> seq_le((#[trigger] s[j]).name, a.name),
        k < s.len() ==> !seq_le(s[k].name, a.name),
    ensures
        insert_by_name(s, a) == s.insert(k, a),
    decreases s.len(),
{
    if s.len() == 0 {
        assert(insert_by_name(s, a) =~= s.insert(0, a));
    } else if k == 0 {
        assert(insert_by_name(s, a) =~= s.insert(0, a));
    } else {
        let d = s.skip(1);
        assert forall|j: int| 0 <= j < k - 1 implies seq_le((#[trigger] d[j]).name, a.name) by {
            assert(d[j] == s[j + 1]);
        }
        if k - 1 < d.len() {
            assert(d[k - 1] == s[k]);
        }
        lemma_insert_by_name_at(d, a, k - 1);
        assert(seq![s[0]] + d.insert(k - 1, a) =~= s.insert(k, a));
    }
}

/// Where [`insert_by_filename`] places the row: at the first index whose
/// filename is strictly greater than the new row's.
proof fn lemma_insert_by_filename_at(s: Seq<ImageModel>, r: ImageModel, k: int)
    requires
        0 <= k <= s.len(),
        forall|j: int| 0 <= j < k ==> seq_le((#[trigger] s[j]).filename, r.filename),
        k < s.len() ==> !seq_le(s[k].filename, r.filename),
    ensures
        insert_by_filename(s, r) == s.insert(k, r),
    decreases s.len(),
{
    if s.len() == 0 {
        assert(insert_by_filename(s, r) =~= s.insert(0, r));
    } else if k == 0 {
        assert(insert_by_filename(s, r) =~= s.insert(0, r));
    } else {
        let d = s.skip(1);
        assert forall|j: int| 0 <= j < k - 1 implies seq_le((#[trigger] d[j]).filename, r.filename) by {
            assert(d[j] == s[j + 1]);
        }
        if k - 1 < d.len() {
            assert(d[k - 1] == s[k]);
        }
        lemma_insert_by_filename_at(d, r, k - 1);
        assert(seq![s[0]] + d.insert(k - 1, r) =~= s.insert(k, r));
    }
}

/// Sorting keeps the number of rows.
proof fn lemma_sort_by_filename_len(s: Seq<ImageModel>)
    ensures
        sort_by_filename(s).len() == s.len(),
    decreases s.len(),
{
    if s.len() > 0 {
        lemma_sort_by_filename_len(s.drop_last());
        lemma_insert_by_filename_len(sort_by_filename(s.drop_last()), s.last());
    }
}

/// Inserting adds exactly one row.
proof fn lemma_insert_by_filename_len(s: Seq<ImageModel>, r: ImageModel)
    ensures
        insert_by_filename(s, r).len() == s.len() + 1,
    decreases s.len(),
{
    if s.len() > 0 && seq_le(s[0].filename, r.filename) {
        lemma_insert_by_filename_len(s.skip(1), r);
    }
}

/// Places an album row into a name-sorted list.
fn insert_album_sorted(v: &mut Vec<Album>, a: Album)
    ensures
        final(v).deep_view() == insert_by_name(old(v).deep_view(), a@),
{
    let ghost m = v.deep_view();
    let ghost am = a@;
    let n = v.len();
    let mut k: usize = 0;
    while k < n && str_le(v[k].name.as_str(), a.name.as_str())
        invariant
            0 <= k <= n,
            n == v@.len(),
            m == v.deep_view(),
            am == a@,
            forall|j: int| 0 <= j < k ==> seq_le((#[trigger] v.deep_view()[j]).name, am.name),
        decreases n - k,
    {
        k = k + 1;
    }
    proof {
        lemma_insert_by_name_at(m, am, k as int);
    }
    let ghost pv = v@;
    v.insert(k, a);
    proof {
        assert forall|j: int| 0 <= j < v.deep_view().len() implies v.deep_view()[j] == m.insert(
            k as int,
            am,
        )[j] by {
            if j < k {
                assert(v@[j] == pv[j]);
            } else if j > k {
                assert(v@[j] == pv[j - 1]);
            }
        }
        assert(v.deep_view() =~= m.insert(k as int, am));
    }
}

/// Places an image row into a filename-sorted list.
fn insert_image_sorted(v: &mut Vec<SyncedImage>, a: SyncedImage)
    ensures
        final(v).deep_view() == insert_by_filename(old(v).deep_view(), a@),
{
    let ghost m = v.deep_view();
    let ghost am = a@;
    let n = v.len();
    let mut k: usize = 0;
    while k < n && str_le(v[k].filename.as_str(), a.filename.as_str())
        invariant
            0 <= k <= n,
            n == v@.len(),
            m == v.deep_view(),
            am == a@,
            forall|j: int| 0 <= j < k ==> seq_le((#[trigger] v.deep_view()[j]).filename, am.filename),
        decreases n - k,
    {
        k = k + 1;
    }
    proof {
        lemma_insert_by_filename_at(m, am, k as int);
    }
    let ghost pv = v@;
    v.insert(k, a);
    proof {
        assert forall|j: int| 0 <= j < v.deep_view().len() implies v.deep_view()[j]
            == m.insert(k as int, am)[j] by {
            if j < k {
                assert(v@[j] == pv[j]);
            } else if j > k {
                assert(v@[j] == pv[j - 1]);
            }
        }
        assert(v.deep_view() =~= m.insert(k as int, am));
    }
}

/// The in-memory model of the durable state store.
pub struct StateStore {
    pub albums: Vec<Album>,
    pub images: Vec<SyncedImage>,
}

impl StateStore {
    /// The albums the store holds, as a sequence of row models.
    pub open spec fn albums_model(self) -> Seq<AlbumRecModel> {
        self.albums.deep_view()
    }

    /// The image records the store holds, as a sequence of row models.
    pub open spec fn images_model(self) -> Seq<ImageModel> {
        self.images.deep_view()
    }

    /// Well-formedness: the store is keyed by id, so ids are unique.
    pub open spec fn wf(self) -> bool {
        unique_album_ids(self.albums_model()) && unique_image_ids(self.images_model())
    }

    /// An empty store.
    pub fn new() -> (r: StateStore)
        ensures
            r.albums_model() == Seq::<AlbumRecModel>::empty(),
            r.images_model() == Seq::<ImageModel>::empty(),
            r.wf(),
    {
        let r = StateStore { albums: Vec::new(), images: Vec::new() };
        proof {
            assert(r.albums_model() =~= Seq::<AlbumRecModel>::empty());
            assert(r.images_model() =~= Seq::<ImageModel>::empty());
        }
        r
    }

    /// Whether the store's ids are unique — the well-formedness the engines
    /// require. A store filled from outside is checked through this before
    /// the engines run on it.
    pub fn check_wf(&self) -> (r: bool)
        ensures
            r == self.wf(),
    {
        let an = self.albums.len();
        let mut i: usize = 0;
        while i < an
            invariant
                0 <= i <= an,
                an == self.albums@.len(),
                forall|a: int, b: int|
                    0 <= a < b < i ==> #[trigger] self.albums_model()[a].id
                        != #[trigger] self.albums_model()[b].id,
            decreases an - i,
        {
            let mut j: usize = 0;
            while j < i
                invariant
                    0 <= j <= i < an,
                    an == self.albums@.len(),
                    forall|k: int|
                        0 <= k < j ==> #[trigger] self.albums_model()[k].id
                            != self.albums_model()[i as int].id,
                decreases i - j,
            {
                if str_eq(self.albums[j].id.as_str(), self.albums[i].id.as_str()) {
                    proof {
                        assert(self.albums_model()[j as int].id == self.albums_model()[
                            i as int
                        ].id);
                    }
                    return false;
                }
                j = j + 1;
            }
            i = i + 1;
        }
        let n = self.images.len();
        let mut i2: usize = 0;
        while i2 < n
            invariant
                0 <= i2 <= n,
                n == self.images@.len(),
                forall|a: int, b: int|
                    0 <= a < b < i2 ==> #[trigger] self.images_model()[a].id
                        != #[trigger] self.images_model()[b].id,
            decreases n - i2,
        {
            let mut j: usize = 0;
            while j < i2
                invariant
                    0 <= j <= i2 < n,
                    n == self.images@.len(),
                    forall|k: int|
                        0 <= k < j ==> #[trigger] self.images_model()[k].id
                            != self.images_model()[i2 as int].id,
                decreases i2 - j,
            {
                if str_eq(self.images[j].id.as_str(), self.images[i2].id.as_str()) {
                    proof {
                        assert(self.images_model()[j as int].id == self.images_model()[
                            i2 as int
                        ].id);
                    }
                    return false;
                }
                j = j + 1;
            }
            i2 = i2 + 1;
        }
        true
    }

    /// Index of the album row bearing `id`, if any.
    fn album_index(&self, id: &str) -> (r: Option<usize>)
        ensures
            match r {
                Some(i) => i < self.albums_model().len() && self.albums_model()[i as int].id == id@,
                None => !has_album(self.albums_model(), id@),
            },
    {
        let n = self.albums.len();
        let mut i: usize = 0;
        while i < n
            invariant
                0 <= i <= n,
                n == self.albums@.len(),
                forall|j: int| 0 <= j < i ==> #[trigger] self.albums_model()[j].id != id@,
            decreases n - i,
        {
            if str_eq(self.albums[i].id.as_str(), id) {
                return Some(i);
            }
            i = i + 1;
        }
        None
    }

    /// Index of the image row bearing `id`, if any.
    fn image_index(&self, id: &str) -> (r: Option<usize>)
        ensures
            match r {
                Some(i) => i < self.images_model().len() && self.images_model()[i as int].id == id@,
                None => !has_image(self.images_model(), id@),
            },
    {
        let n = self.images.len();
        let mut i: usize = 0;
        while i < n
            invariant
                0 <= i <= n,
                n == self.images@.len(),
                forall|j: int| 0 <= j < i ==> #[trigger] self.images_model()[j].id != id@,
            decreases n - i,
        {
            if str_eq(self.images[i].id.as_str(), id) {
                return Some(i);
            }
            i = i + 1;
        }
        None
    }
}

impl Album {
    /// Creates or refreshes the album row bearing `id`: every sync pass
    /// writes the name, the asset count, and the sync time `now`.
    pub fn upsert(store: &mut StateStore, id: &str, name: &str, asset_count: i64, now: i64)
        requires
            old(store).wf(),
        ensures
            final(store).wf(),
            final(store).images_model() == old(store).images_model(),
            final(store).albums_model() == upsert_album_seq(
                old(store).albums_model(),
                album_row(id@, name@, asset_count, now),
            ),
    {
        let rec = Album {
            id: String::from_str(id),
            name: String::from_str(name),
            asset_count: Some(asset_count),
            last_sync: Some(now),
        };
        let ghost m = store.albums_model();
        match store.album_index(id) {
            Some(i) => {
                store.albums.remove(i);
                store.albums.insert(i, rec);
                proof {
                    let f = |r: AlbumRecModel| if r.id == id@ { album_row(id@, name@, asset_count, now) } else { r };
                    assert(store.albums_model() =~= m.map_values(f));
                    assert(unique_album_ids(store.albums_model()));
                }
            },
            None => {
                store.albums.push(rec);
                proof {
                    assert(store.albums_model() =~= m.push(album_row(id@, name@, asset_count, now)));
                    assert(unique_album_ids(store.albums_model()));
                }
            },
        }
    }

    /// Every album known to the store, sorted by name.
    pub fn get_all(store: &StateStore) -> (r: Vec<Album>)
        ensures
            r.deep_view() == sort_by_name(store.albums_model()),
    {
        let ghost m = store.albums_model();
        let n = store.albums.len();
        let mut out: Vec<Album> = Vec::new();
        let mut i: usize = 0;
        proof {
            assert(m.take(0) =~= Seq::<AlbumRecModel>::empty());
            assert(out.deep_view() =~= sort_by_name(m.take(0)));
        }
        while i < n
            invariant
                0 <= i <= n,
                n == store.albums@.len(),
                m == store.albums_model(),
                out.deep_view() == sort_by_name(m.take(i as int)),
            decreases n - i,
        {
            proof {
                assert(m.take(i + 1).drop_last() =~= m.take(i as int));
                assert(m.take(i + 1).last() == m[i as int]);
            }
            insert_album_sorted(&mut out, store.albums[i].clone_rec());
            i = i + 1;
        }
        proof {
            assert(m.take(n as int) =~= m);
        }
        out
    }

    /// The album bearing `id`, if the store knows it.
    pub fn get_by_id(store: &StateStore, id: &str) -> (r: Option<Album>)
        ensures
            match r {
                Some(a) => has_album(store.albums_model(), id@) && a@.id == id@ && exists|i: int|
                    0 <= i < store.albums_model().len() && a@ == #[trigger] store.albums_model()[i],
                None => !has_album(store.albums_model(), id@),
            },
    {
        match store.album_index(id) {
            Some(i) => Some(store.albums[i].clone_rec()),
            None => None,
        }
    }
}

/// The model of an optional borrowed string.
pub open spec fn opt_str_m(o: Option<&str>) -> Option<Seq<char>> {
    match o {
        Some(s) => Some(s@),
        None => None,
    }
}

/// An owned copy of an optional borrowed string.
fn opt_str_owned(o: Option<&str>) -> (r: Option<String>)
    ensures
        r.deep_view() == opt_str_m(o),
{
    match o {
        Some(s) => Some(String::from_str(s)),
        None => None,
    }
}

impl SyncedImage {
    /// Records a successful download: creates the record bearing `id` or
    /// refreshes its sync fields, leaving any conversion state untouched.
    pub fn upsert(
        store: &mut StateStore,
        id: &str,
        album_id: &str,
        filename: &str,
        checksum: Option<&str>,
        original_path: Option<&str>,
        file_size: Option<i64>,
        now: i64,
    )
        requires
            old(store).wf(),
        ensures
            final(store).wf(),
            final(store).albums_model() == old(store).albums_model(),
            final(store).images_model() == upsert_image_seq(
                old(store).images_model(),
                image_row(id@, album_id@, filename@, opt_str_m(checksum), opt_str_m(original_path), file_size, now),
            ),
    {
        let ghost u = image_row(
            id@,
            album_id@,
            filename@,
            opt_str_m(checksum),
            opt_str_m(original_path),
            file_size,
            now,
        );
        let ghost m = store.images_model();
        match store.image_index(id) {
            Some(i) => {
                let old_rec = &store.images[i];
                let rec = SyncedImage {
                    id: String::from_str(id),
                    album_id: String::from_str(album_id),
                    filename: String::from_str(filename),
                    checksum: opt_str_owned(checksum),
                    original_path: opt_str_owned(original_path),
                    file_size,
                    synced_at: Some(now),
                    avif_path: clone_opt_string(&old_rec.avif_path),
                    thumbnail_path: clone_opt_string(&old_rec.thumbnail_path),
                    converted_at: old_rec.converted_at,
                };
                proof {
                    assert(rec@ == apply_sync_fields(m[i as int], u));
                }
                store.images.remove(i);
                store.images.insert(i, rec);
                proof {
                    let f = |r: ImageModel| if r.id == u.id { apply_sync_fields(r, u) } else { r };
                    assert(store.images_model() =~= m.map_values(f));
                    assert(unique_image_ids(store.images_model()));
                }
            },
            None => {
                let rec = SyncedImage {
                    id: String::from_str(id),
                    album_id: String::from_str(album_id),
                    filename: String::from_str(filename),
                    checksum: opt_str_owned(checksum),
                    original_path: opt_str_owned(original_path),
                    file_size,
                    synced_at: Some(now),
                    avif_path: None,
                    thumbnail_path: None,
                    converted_at: None,
                };
                store.images.push(rec);
                proof {
                    assert(store.images_model() =~= m.push(u));
                    assert(unique_image_ids(store.images_model()));
                }
            },
        }
    }

    /// Records a finished conversion: sets both derivative paths and the
    /// conversion time on the record bearing `id`, if the store knows it.
    pub fn mark_converted(store: &mut StateStore, id: &str, avif_path: &str, thumbnail_path: &str, now: i64)
        requires
            old(store).wf(),
        ensures
            final(store).wf(),
            final(store).albums_model() == old(store).albums_model(),
            final(store).images_model() == mark_converted_seq(
                old(store).images_model(),
                id@,
                avif_path@,
                thumbnail_path@,
                now,
            ),
    {
        let ghost m = store.images_model();
        let ghost f = |r: ImageModel| if r.id == id@ {
            converted_row(r, avif_path@, thumbnail_path@, now)
        } else {
            r
        };
        match store.image_index(id) {
            Some(i) => {
                let old_rec = &store.images[i];
                let rec = SyncedImage {
                    id: String::from_str(id),
                    album_id: old_rec.album_id.clone(),
                    filename: old_rec.filename.clone(),
                    checksum: clone_opt_string(&old_rec.checksum),
                    original_path: clone_opt_string(&old_rec.original_path),
                    file_size: old_rec.file_size,
                    synced_at: old_rec.synced_at,
                    avif_path: Some(String::from_str(avif_path)),
                    thumbnail_path: Some(String::from_str(thumbnail_path)),
                    converted_at: Some(now),
                };
                proof {
                    assert(rec@ == converted_row(m[i as int], avif_path@, thumbnail_path@, now));
                }
                store.images.remove(i);
                store.images.insert(i, rec);
                proof {
                    assert(store.images_model() =~= m.map_values(f));
                    assert(unique_image_ids(store.images_model()));
                }
            },
            None => {
                proof {
                    assert(store.images_model() =~= m.map_values(f));
                }
            },
        }
    }

    /// The record bearing `id`, if the store knows it.
    pub fn get_by_id(store: &StateStore, id: &str) -> (r: Option<SyncedImage>)
        ensures
            match r {
                Some(img) => has_image(store.images_model(), id@) && img@.id == id@ && exists|i: int|
                    0 <= i < store.images_model().len() && img@ == #[trigger] store.images_model()[i],
                None => !has_image(store.images_model(), id@),
            },
    {
        match store.image_index(id) {
            Some(i) => Some(store.images[i].clone_rec()),
            None => None,
        }
    }

    /// Every record filed under `album_id`, sorted by filename.
    pub fn get_by_album(store: &StateStore, album_id: &str) -> (r: Vec<SyncedImage>)
        ensures
            r.deep_view() == sort_by_filename(album_images(store.images_model(), album_id@)),
    {
        let ghost m = store.images_model();
        let n = store.images.len();
        let mut out: Vec<SyncedImage> = Vec::new();
        let mut i: usize = 0;
        proof {
            assert(m.take(0) =~= Seq::<ImageModel>::empty());
            reveal(Seq::filter);
            assert(out.deep_view() =~= sort_by_filename(album_images(m.take(0), album_id@)));
        }
        while i < n
            invariant
                0 <= i <= n,
                n == store.images@.len(),
                m == store.images_model(),
                out.deep_view() == sort_by_filename(album_images(m.take(i as int), album_id@)),
            decreases n - i,
        {
            let ghost x = album_images(m.take(i as int), album_id@);
            proof {
                reveal(Seq::filter);
                assert(m.take(i + 1).drop_last() =~= m.take(i as int));
                assert(m.take(i + 1).last() == m[i as int]);
            }
            if str_eq(store.images[i].album_id.as_str(), album_id) {
                proof {
                    assert(album_images(m.take(i + 1), album_id@) == x.push(m[i as int]));
                    assert(x.push(m[i as int]).drop_last() =~= x);
                    assert(x.push(m[i as int]).last() == m[i as int]);
                }
                insert_image_sorted(&mut out, store.images[i].clone_rec());
            } else {
                proof {
                    assert(album_images(m.take(i + 1), album_id@) == x);
                }
            }
            i = i + 1;
        }
        proof {
            assert(m.take(n as int) =~= m);
        }
        out
    }

    /// A page of the converted records filed under `album_id`: `limit`
    /// records starting `offset` records into the album's converted records,
    /// sorted by filename.
    pub fn get_by_album_paginated(store: &StateStore, album_id: &str, offset: usize, limit: usize) -> (r: Vec<
        SyncedImage,
    >)
        ensures
            r.deep_view() == page_seq(
                sort_by_filename(album_converted_images(store.images_model(), album_id@)),
                offset as nat,
                limit as nat,
            ),
    {
        let all = Self::converted_by_album(store, album_id);
        let ghost s = sort_by_filename(album_converted_images(store.images_model(), album_id@));
        let n = all.len();
        let mut out: Vec<SyncedImage> = Vec::new();
        if offset >= n {
            proof {
                assert(out.deep_view() =~= page_seq(s, offset as nat, limit as nat));
            }
            return out;
        }
        let mut i: usize = offset;
        let mut cnt: usize = 0;
        while i < n && cnt < limit
            invariant
                offset <= i <= n,
                n == all@.len(),
                all.deep_view() == s,
                cnt <= limit,
                i == offset + cnt,
                offset < n,
                out.deep_view() =~= s.subrange(offset as int, i as int),
            decreases n - i,
        {
            let ghost prev = out@;
            let ghost prevdv = out.deep_view();
            proof {
                assert(prevdv =~= s.subrange(offset as int, i as int));
            }
            out.push(all[i].clone_rec());
            proof {
                assert(out@.last()@ == s[i as int]);
                assert forall|j: int| 0 <= j < out@.len() implies out.deep_view()[j] == s.subrange(
                    offset as int,
                    i + 1,
                )[j] by {
                    if j < prevdv.len() {
                        assert(out@[j] == prev[j]);
                        assert(prevdv[j] == prev[j].deep_view());
                    }
                }
                assert(out.deep_view() =~= s.subrange(offset as int, i + 1));
            }
            i = i + 1;
            cnt = cnt + 1;
        }
        proof {
            assert(out.deep_view() =~= page_seq(s, offset as nat, limit as nat));
        }
        out
    }

    /// The converted records filed under `album_id`, sorted by filename.
    fn converted_by_album(store: &StateStore, album_id: &str) -> (r: Vec<SyncedImage>)
        ensures
            r.deep_view() == sort_by_filename(album_converted_images(store.images_model(), album_id@)),
    {
        let ghost m = store.images_model();
        let n = store.images.len();
        let mut out: Vec<SyncedImage> = Vec::new();
        let mut i: usize = 0;
        proof {
            assert(m.take(0) =~= Seq::<ImageModel>::empty());
            reveal(Seq::filter);
            assert(out.deep_view() =~= sort_by_filename(album_converted_images(m.take(0), album_id@)));
        }
        while i < n
            invariant
                0 <= i <= n,
                n == store.images@.len(),
                m == store.images_model(),
                out.deep_view() == sort_by_filename(album_converted_images(m.take(i as int), album_id@)),
            decreases n - i,
        {
            let ghost x = album_converted_images(m.take(i as int), album_id@);
            proof {
                reveal(Seq::filter);
                assert(m.take(i + 1).drop_last() =~= m.take(i as int));
                assert(m.take(i + 1).last() == m[i as int]);
            }
            if str_eq(store.images[i].album_id.as_str(), album_id) && store.images[i].avif_path.is_some() {
                proof {
                    assert(album_converted_images(m.take(i + 1), album_id@) == x.push(m[i as int]));
                    assert(x.push(m[i as int]).drop_last() =~= x);
                    assert(x.push(m[i as int]).last() == m[i as int]);
                }
                insert_image_sorted(&mut out, store.images[i].clone_rec());
            } else {
                proof {
                    assert(album_converted_images(m.take(i + 1), album_id@) == x);
                }
            }
            i = i + 1;
        }
        proof {
            assert(m.take(n as int) =~= m);
        }
        out
    }

    /// How many converted records are filed under `album_id`.
    pub fn count_by_album(store: &StateStore, album_id: &str) -> (r: usize)
        ensures
            r == album_converted_images(store.images_model(), album_id@).len(),
    {
        let all = Self::converted_by_album(store, album_id);
        proof {
            lemma_sort_by_filename_len(album_converted_images(store.images_model(), album_id@));
        }
        all.len()
    }

    /// Every record eligible for conversion, in store order.
    pub fn get_unconverted(store: &StateStore) -> (r: Vec<SyncedImage>)
        ensures
            r.deep_view() == unconverted_images(store.images_model()),
    {
        let ghost m = store.images_model();
        let n = store.images.len();
        let mut out: Vec<SyncedImage> = Vec::new();
        let mut i: usize = 0;
        while i < n
            invariant
                0 <= i <= n,
                n == store.images@.len(),
                m == store.images_model(),
                out.deep_view() =~= unconverted_images(m.take(i as int)),
            decreases n - i,
        {
            let ghost prev = out@;
            let ghost prevdv = out.deep_view();
            proof {
                assert(prevdv =~= unconverted_images(m.take(i as int)));
                reveal(Seq::filter);
                assert(m.take(i + 1).drop_last() =~= m.take(i as int));
                assert(m.take(i + 1).last() == m[i as int]);
            }
            let rec = &store.images[i];
            if rec.original_path.is_some() && (rec.converted_at.is_none() || rec.thumbnail_path.is_none()) {
                out.push(store.images[i].clone_rec());
                proof {
                    assert(out@.last()@ == m[i as int]);
                    assert forall|j: int| 0 <= j < out@.len() implies out.deep_view()[j]
                        == unconverted_images(m.take(i + 1))[j] by {
                        if j < prevdv.len() {
                            assert(out@[j] == prev[j]);
                            assert(prevdv[j] == prev[j].deep_view());
                        }
                    }
                    assert(out.deep_view() =~= unconverted_images(m.take(i + 1)));
                }
            } else {
                proof {
                    assert(out.deep_view() =~= unconverted_images(m.take(i + 1)));
                }
            }
            i = i + 1;
        }
        proof {
            assert(m.take(n as int) =~= m);
        }
        out
    }

    /// The ids of every record the store knows, in store order.
    pub fn get_all_synced_ids(store: &StateStore) -> (r: Vec<String>)
        ensures
            r.deep_view() == image_ids(store.images_model()),
    {
        let ghost m = store.images_model();
        let n = store.images.len();
        let mut out: Vec<String> = Vec::new();
        let mut i: usize = 0;
        while i < n
            invariant
                0 <= i <= n,
                n == store.images@.len(),
                m == store.images_model(),
                out.deep_view() =~= image_ids(m.take(i as int)),
            decreases n - i,
        {
            let ghost prev = out@;
            let ghost prevdv = out.deep_view();
            proof {
                assert(prevdv =~= image_ids(m.take(i as int)));
                assert(prevdv.len() == prev.len());
                assert(prev.len() == i as int);
            }
            out.push(store.images[i].id.clone());
            proof {
                assert(out@.last()@ == m[i as int].id);
                assert forall|j: int| 0 <= j < out@.len() implies out.deep_view()[j] == image_ids(
                    m.take(i + 1),
                )[j] by {
                    if j < prevdv.len() {
                        assert(out@[j] == prev[j]);
                        assert(prevdv[j] == prev[j].deep_view());
                    }
                }
                assert(out.deep_view() =~= image_ids(m.take(i + 1)));
            }
            i = i + 1;
        }
        proof {
            assert(m.take(n as int) =~= m);
        }
        out
    }

    /// Deletes the record bearing `id`, if the store knows it.
    pub fn delete_by_id(store: &mut StateStore, id: &str)
        requires
            old(store).wf(),
        ensures
            final(store).wf(),
            final(store).albums_model() == old(store).albums_model(),
            final(store).images_model() == remove_image_seq(old(store).images_model(), id@),
    {
        let ghost m = store.images_model();
        let n = store.images.len();
        let mut out: Vec<SyncedImage> = Vec::new();
        let mut i: usize = 0;
        while i < n
            invariant
                0 <= i <= n,
                n == store.images@.len(),
                m == store.images_model(),
                out.deep_view() =~= remove_image_seq(m.take(i as int), id@),
            decreases n - i,
        {
            let ghost prev = out@;
            let ghost prevdv = out.deep_view();
            proof {
                assert(prevdv =~= remove_image_seq(m.take(i as int), id@));
                reveal(Seq::filter);
                assert(m.take(i + 1).drop_last() =~= m.take(i as int));
                assert(m.take(i + 1).last() == m[i as int]);
            }
            if !str_eq(store.images[i].id.as_str(), id) {
                out.push(store.images[i].clone_rec());
                proof {
                    assert(out@.last()@ == m[i as int]);
                    assert forall|j: int| 0 <= j < out@.len() implies out.deep_view()[j]
                        == remove_image_seq(m.take(i + 1), id@)[j] by {
                        if j < prevdv.len() {
                            assert(out@[j] == prev[j]);
                            assert(prevdv[j] == prev[j].deep_view());
                        }
                    }
                    assert(out.deep_view() =~= remove_image_seq(m.take(i + 1), id@));
                }
            } else {
                proof {
                    assert(out.deep_view() =~= remove_image_seq(m.take(i + 1), id@));
                }
            }
            i = i + 1;
        }
        store.images = out;
        proof {
            assert(m.take(n as int) =~= m);
            lemma_filter_keeps_unique_ids(m, |r: ImageModel| r.id != id@);
        }
    }

    /// Clears the conversion fields of every record, forcing reconversion;
    /// says how many records were rewritten.
    pub fn clear_all_conversions(store: &mut StateStore) -> (r: u64)
        requires
            old(store).wf(),
        ensures
            final(store).wf(),
            final(store).albums_model() == old(store).albums_model(),
            final(store).images_model() == clear_conversions_seq(old(store).images_model()),
            r == old(store).images_model().len(),
    {
        let ghost m = store.images_model();
        let n = store.images.len();
        let mut out: Vec<SyncedImage> = Vec::new();
        let mut i: usize = 0;
        while i < n
            invariant
                0 <= i <= n,
                n == store.images@.len(),
                m == store.images_model(),
                out.deep_view() =~= clear_conversions_seq(m.take(i as int)),
            decreases n - i,
        {
            let ghost prev = out@;
            let ghost prevdv = out.deep_view();
            proof {
                assert(prevdv =~= clear_conversions_seq(m.take(i as int)));
                assert(prevdv.len() == prev.len());
                assert(prev.len() == i as int);
            }
            let rec = &store.images[i];
            out.push(
                SyncedImage {
                    id: rec.id.clone(),
                    album_id: rec.album_id.clone(),
                    filename: rec.filename.clone(),
                    checksum: clone_opt_string(&rec.checksum),
                    original_path: clone_opt_string(&rec.original_path),
                    file_size: rec.file_size,
                    synced_at: rec.synced_at,
                    avif_path: None,
                    thumbnail_path: None,
                    converted_at: None,
                },
            );
            proof {
                assert(out@.last()@ == cleared_row(m[i as int]));
                assert forall|j: int| 0 <= j < out@.len() implies out.deep_view()[j]
                    == clear_conversions_seq(m.take(i + 1))[j] by {
                    if j < prevdv.len() {
                        assert(out@[j] == prev[j]);
                        assert(prevdv[j] == prev[j].deep_view());
                    }
                }
                assert(out.deep_view() =~= clear_conversions_seq(m.take(i + 1)));
            }
            i = i + 1;
        }
        store.images = out;
        proof {
            assert(m.take(n as int) =~= m);
            assert(unique_image_ids(store.images_model()));
        }
        n as u64
    }
}

/// A page of a sequence: up to `limit` elements starting at `offset`.
pub open spec fn page_seq(s: Seq<ImageModel>, offset: nat, limit: nat) -> Seq<ImageModel> {
    if offset >= s.len() {
        Seq::<ImageModel>::empty()
    } else if offset + limit <= s.len() {
        s.subrange(offset as int, (offset + limit) as int)
    } else {
        s.subrange(offset as int, s.len() as int)
    }
}

/// Keeping a subset of the rows keeps their ids unique.
pub(crate) proof fn lemma_filter_keeps_unique_ids(s: Seq<ImageModel>, pred: spec_fn(ImageModel) -> bool)
    requires
        unique_image_ids(s),
    ensures
        unique_image_ids(s.filter(pred)),
    decreases s.len(),
{
    reveal(Seq::filter);
    if s.len() > 0 {
        let d = s.drop_last();
        assert(unique_image_ids(d));
        lemma_filter_keeps_unique_ids(d, pred);
        lemma_filter_elems_of(d, pred);
        if pred(s.last()) {
            assert forall|i: int, j: int|
                0 <= i < j < s.filter(pred).len() implies #[trigger] s.filter(pred)[i].id
                != #[trigger] s.filter(pred)[j].id by {
                if j == s.filter(pred).len() - 1 {
                    let x = d.filter(pred)[i];
                    assert(d.contains(x));
                    let k = choose|k: int| 0 <= k < d.len() && d[k] == x;
                    assert(s[k] == x);
                    assert(s[k].id != s[s.len() - 1].id);
                }
            }
        }
    }
}

/// Every row a filter keeps comes from the sequence it filtered.
proof fn lemma_filter_elems_of(s: Seq<ImageModel>, pred: spec_fn(ImageModel) -> bool)
    ensures
        forall|k: int| 0 <= k < s.filter(pred).len() ==> s.contains(#[trigger] s.filter(pred)[k]),
    decreases s.len(),
{
    reveal(Seq::filter);
    if s.len() > 0 {
        let d = s.drop_last();
        lemma_filter_elems_of(d, pred);
        assert forall|k: int| 0 <= k < s.filter(pred).len() implies s.contains(
            #[trigger] s.filter(pred)[k],
        ) by {
            if k < d.filter(pred).len() {
                assert(d.contains(d.filter(pred)[k]));
                let j = choose|j: int| 0 <= j < d.len() && d[j] == d.filter(pred)[k];
                assert(s[j] == d[j]);
            } else {
                assert(s.filter(pred)[k] == s.last());
            }
        }
    }
}

} // verus!
