//! The computable half of the remote-library client: endpoint addresses,
//! normalisation of the configured base address, and the merge of the owned
//! and shared album listings, deduplicated by id in first-seen order. The
//! requests themselves are ordinary network traffic and happen outside.

use vstd::prelude::*;
use crate::types::{AlbumModel, AlbumResponse};
use crate::util::str_eq;

verus! {

/// Length of `s` without its trailing `/` characters.
pub open spec fn trimmed_len(s: Seq<char>) -> int
    decreases s.len(),
{
    if s.len() > 0 && s.last() == '/' {
        trimmed_len(s.drop_last())
    } else {
        s.len() as int
    }
}

/// The trimmed length cuts exactly the trailing `/` run: everything at or
/// past it is `/`, and it is not preceded by one.
proof fn lemma_trimmed_len_at(s: Seq<char>, k: int)
    requires
        0 <= k <= s.len(),
        forall|j: int| k <= j < s.len() ==> s[j] == '/',
        k > 0 ==> s[k - 1] != '/',
    ensures
        trimmed_len(s) == k,
    decreases s.len(),
{
    if s.len() > 0 && s.last() == '/' {
        lemma_trimmed_len_at(s.drop_last(), k);
    }
}

/// The configured base address with trailing `/` characters removed, so
/// endpoint paths can be appended uniformly.
pub fn trim_base_url(url: &str) -> (r: String)
    ensures
        r@ == url@.take(trimmed_len(url@)),
{
    let n = url.unicode_len();
    let mut k = n;
    while k > 0 && url.get_char(k - 1) == '/'
        invariant
            0 <= k <= n,
            n == url@.len(),
            forall|j: int| k <= j < n ==> url@[j] == '/',
        decreases k,
    {
        k = k - 1;
    }
    proof {
        lemma_trimmed_len_at(url@, k as int);
    }
    let r = url.substring_char(0, k);
    String::from_str(r)
}

/// Address of the owned-albums listing.
pub fn albums_url(base: &str) -> (r: String)
    ensures
        r@ == base@ + "/api/albums"@,
{
    String::from_str(base).concat("/api/albums")
}

/// Address of the shared-albums listing.
pub fn shared_albums_url(base: &str) -> (r: String)
    ensures
        r@ == base@ + "/api/albums?shared=true"@,
{
    String::from_str(base).concat("/api/albums?shared=true")
}

/// Address of the version query a ping makes.
pub fn server_version_url(base: &str) -> (r: String)
    ensures
        r@ == base@ + "/api/server/version"@,
{
    String::from_str(base).concat("/api/server/version")
}

/// Address of one album's detail, asset list included.
pub fn album_url(base: &str, album_id: &str) -> (r: String)
    ensures
        r@ == base@ + "/api/albums/"@ + album_id@,
{
    String::from_str(base).concat("/api/albums/").concat(album_id)
}

/// Address of one asset's metadata.
pub fn asset_url(base: &str, asset_id: &str) -> (r: String)
    ensures
        r@ == base@ + "/api/assets/"@ + asset_id@,
{
    String::from_str(base).concat("/api/assets/").concat(asset_id)
}

/// Address the original bytes of one asset are downloaded from.
pub fn asset_download_url(base: &str, asset_id: &str) -> (r: String)
    ensures
        r@ == base@ + "/api/assets/"@ + asset_id@ + "/original"@,
{
    String::from_str(base).concat("/api/assets/").concat(asset_id).concat("/original")
}

/// An album id occurs in the listing.
pub open spec fn seen_album_id(s: Seq<AlbumModel>, id: Seq<char>) -> bool {
    exists|i: int| 0 <= i < s.len() && #[trigger] s[i].id == id
}

/// No two listed albums share an id.
pub open spec fn unique_album_resp_ids(s: Seq<AlbumModel>) -> bool {
    forall|i: int, j: int| 0 <= i < j < s.len() ==> #[trigger] s[i].id != #[trigger] s[j].id
}

/// A listing reduced to the first occurrence of each album id, keeping
/// first-seen order.
pub open spec fn dedup_albums(s: Seq<AlbumModel>) -> Seq<AlbumModel>
    decreases s.len(),
{
    if s.len() == 0 {
        Seq::<AlbumModel>::empty()
    } else {
        let d = dedup_albums(s.drop_last());
        if seen_album_id(s.drop_last(), s.last().id) {
            d
        } else {
            d.push(s.last())
        }
    }
}

/// Deduplication keeps exactly the ids of the original listing.
pub proof fn lemma_dedup_same_ids(s: Seq<AlbumModel>)
    ensures
        forall|id: Seq<char>| seen_album_id(dedup_albums(s), id) <==> seen_album_id(s, id),
    decreases s.len(),
{
    if s.len() > 0 {
        let d = s.drop_last();
        lemma_dedup_same_ids(d);
        let out = dedup_albums(s);
        let dd = dedup_albums(d);
        assert forall|id: Seq<char>| seen_album_id(out, id) <==> seen_album_id(s, id) by {
            if seen_album_id(out, id) {
                let k = choose|k: int| 0 <= k < out.len() && out[k].id == id;
                if k < dd.len() {
                    assert(dd[k].id == id);
                    assert(seen_album_id(dedup_albums(d), id));
                    assert(seen_album_id(d, id));
                    let i = choose|i: int| 0 <= i < d.len() && #[trigger] d[i].id == id;
                    assert(s[i].id == id);
                } else {
                    assert(out[k] == s.last());
                    assert(s[s.len() - 1].id == id);
                }
            }
            if seen_album_id(s, id) {
                let i = choose|i: int| 0 <= i < s.len() && s[i].id == id;
                if i < s.len() - 1 {
                    assert(d[i].id == id);
                    assert(seen_album_id(d, id));
                    assert(seen_album_id(dd, id));
                    let k = choose|k: int| 0 <= k < dd.len() && dd[k].id == id;
                    assert(out[k].id == id);
                } else {
                    if seen_album_id(d, s.last().id) {
                        assert(seen_album_id(dd, id));
                        let k = choose|k: int| 0 <= k < dd.len() && dd[k].id == id;
                        assert(out[k].id == id);
                    } else {
                        assert(out.last().id == id);
                    }
                }
            }
        }
    }
}

/// An album listed by both the owned and the shared query appears exactly
/// once in the merged listing: deduplication keeps every listed id, and no
/// id twice.
pub proof fn lemma_dedup_unique_ids(s: Seq<AlbumModel>)
    ensures
        unique_album_resp_ids(dedup_albums(s)),
        forall|id: Seq<char>| seen_album_id(dedup_albums(s), id) <==> seen_album_id(s, id),
    decreases s.len(),
{
    lemma_dedup_same_ids(s);
    if s.len() > 0 {
        let d = s.drop_last();
        lemma_dedup_unique_ids(d);
        if !seen_album_id(d, s.last().id) {
            let out = dedup_albums(s);
            assert forall|i: int, j: int|
                0 <= i < j < out.len() implies #[trigger] out[i].id != #[trigger] out[j].id by {
                if j == out.len() - 1 {
                    assert(out[i] == dedup_albums(d)[i]);
                    assert(seen_album_id(dedup_albums(d), out[i].id));
                    lemma_dedup_same_ids(d);
                }
            }
        }
    }
}

impl AlbumResponse {
    /// A copy of this album description, with the same model.
    pub fn clone_album(&self) -> (r: AlbumResponse)
        ensures
            r@ == self@,
    {
        let n = self.assets.len();
        let mut assets: Vec<crate::types::AssetResponse> = Vec::new();
        let mut i: usize = 0;
        while i < n
            invariant
                0 <= i <= n,
                n == self.assets@.len(),
                assets.deep_view() =~= self.assets.deep_view().take(i as int),
            decreases n - i,
        {
            let ghost prev = assets@;
            let ghost prevdv = assets.deep_view();
            proof {
                assert(prevdv =~= self.assets.deep_view().take(i as int));
                assert(prevdv.len() == prev.len());
            }
            assets.push(self.assets[i].clone_asset());
            proof {
                assert forall|j: int| 0 <= j < assets@.len() implies assets.deep_view()[j]
                    == self.assets.deep_view().take(i + 1)[j] by {
                    if j < prevdv.len() {
                        assert(assets@[j] == prev[j]);
                        assert(prevdv[j] == prev[j].deep_view());
                    }
                }
                assert(assets.deep_view() =~= self.assets.deep_view().take(i + 1));
            }
            i = i + 1;
        }
        proof {
            assert(self.assets.deep_view().take(n as int) =~= self.assets.deep_view());
        }
        AlbumResponse {
            id: self.id.clone(),
            album_name: self.album_name.clone(),
            asset_count: self.asset_count,
            assets,
        }
    }
}

/// Whether an id occurs among the albums collected so far.
fn contains_album_id(v: &Vec<AlbumResponse>, id: &str) -> (r: bool)
    ensures
        r == seen_album_id(v.deep_view(), id@),
{
    let n = v.len();
    let mut i: usize = 0;
    while i < n
        invariant
            0 <= i <= n,
            n == v@.len(),
            forall|j: int| 0 <= j < i ==> #[trigger] v.deep_view()[j].id != id@,
        decreases n - i,
    {
        if str_eq(v[i].id.as_str(), id) {
            proof {
                assert(v.deep_view()[i as int].id == id@);
            }
            return true;
        }
        i = i + 1;
    }
    false
}

/// Merges the owned and the shared album listings: every album of either,
/// deduplicated by id, first occurrence and first-seen order kept.
pub fn merge_albums(owned: &Vec<AlbumResponse>, shared: &Vec<AlbumResponse>) -> (r: Vec<AlbumResponse>)
    ensures
        r.deep_view() == dedup_albums(owned.deep_view() + shared.deep_view()),
{
    let ghost all = owned.deep_view() + shared.deep_view();
    let mut out: Vec<AlbumResponse> = Vec::new();
    let n1 = owned.len();
    let mut i: usize = 0;
    while i < n1
        invariant
            0 <= i <= n1,
            n1 == owned@.len(),
            all == owned.deep_view() + shared.deep_view(),
            out.deep_view() =~= dedup_albums(all.take(i as int)),
        decreases n1 - i,
    {
        let ghost prev = out@;
        let ghost prevdv = out.deep_view();
        proof {
            assert(prevdv =~= dedup_albums(all.take(i as int)));
            assert(prevdv.len() == prev.len());
            assert(all.take(i + 1).drop_last() =~= all.take(i as int));
            assert(all.take(i + 1).last() == all[i as int]);
            assert(all[i as int] == owned.deep_view()[i as int]);
            lemma_dedup_same_ids(all.take(i as int));
        }
        if !contains_album_id(&out, owned[i].id.as_str()) {
            out.push(owned[i].clone_album());
            proof {
                assert forall|j: int| 0 <= j < out@.len() implies out.deep_view()[j]
                    == dedup_albums(all.take(i + 1))[j] by {
                    if j < prevdv.len() {
                        assert(out@[j] == prev[j]);
                        assert(prevdv[j] == prev[j].deep_view());
                    }
                }
                assert(out.deep_view() =~= dedup_albums(all.take(i + 1)));
            }
        } else {
            proof {
                assert(out.deep_view() =~= dedup_albums(all.take(i + 1)));
            }
        }
        i = i + 1;
    }
    let n2 = shared.len();
    let mut k: usize = 0;
    while k < n2
        invariant
            0 <= k <= n2,
            n2 == shared@.len(),
            n1 == owned@.len(),
            all == owned.deep_view() + shared.deep_view(),
            out.deep_view() =~= dedup_albums(all.take(n1 + k)),
        decreases n2 - k,
    {
        let ghost prev = out@;
        let ghost prevdv = out.deep_view();
        proof {
            assert(prevdv =~= dedup_albums(all.take(n1 + k)));
            assert(prevdv.len() == prev.len());
            assert(all.take(n1 + k + 1).drop_last() =~= all.take(n1 + k));
            assert(all.take(n1 + k + 1).last() == all[n1 + k]);
            assert(all[n1 + k] == shared.deep_view()[k as int]);
            lemma_dedup_same_ids(all.take(n1 + k));
        }
        if !contains_album_id(&out, shared[k].id.as_str()) {
            out.push(shared[k].clone_album());
            proof {
                assert forall|j: int| 0 <= j < out@.len() implies out.deep_view()[j]
                    == dedup_albums(all.take(n1 + k + 1))[j] by {
                    if j < prevdv.len() {
                        assert(out@[j] == prev[j]);
                        assert(prevdv[j] == prev[j].deep_view());
                    }
                }
                assert(out.deep_view() =~= dedup_albums(all.take(n1 + k + 1)));
            }
        } else {
            proof {
                assert(out.deep_view() =~= dedup_albums(all.take(n1 + k + 1)));
            }
        }
        k = k + 1;
    }
    proof {
        assert(all.take((n1 + n2) as int) =~= all);
    }
    out
}

} // verus!
