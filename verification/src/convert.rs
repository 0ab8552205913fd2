//! The adaptive conversion engine. Each downloaded original is decoded once
//! and turned into two derivatives — a primary image and a thumbnail — each
//! resized by the aspect-preserving rule and encoded under a byte budget by
//! a monotone back-off: start at the configured quality, and while the
//! encoded size is over the budget and the quality above the floor, step the
//! quality down and encode again; at the floor the oversized result is
//! accepted rather than dropping the asset. A pass over the pending records
//! skips what is already converted on disk — repairing the record — and is
//! the mathematical function [`convert_phase`].

use vstd::prelude::*;
use crate::config::{joined_path, Config, ImageConfig};
use crate::db::{clear_conversions_seq, mark_converted_seq, unconverted_images, ImageModel, StateStore, SyncedImage};
use crate::disk::{add_path_seq, has_path_seq, remove_subtree_seq, Disk};

verus! {

/// Aggregate counts of one conversion pass.
pub struct ConversionResult {
    pub converted: usize,
    pub skipped: usize,
    pub failed: usize,
}

/// How much the back-off lowers the quality per attempt.
pub const QUALITY_STEP: u32 = 5;

/// The encoder preset the derivatives are encoded with.
pub const ENCODE_SPEED: u8 = 4;

#[verifier::external_type_specification]
#[verifier::external_body]
pub struct ExDynamicImage(image::DynamicImage);

/// A decoded image carried through the pipeline together with its pixel
/// dimensions, so the resize rule is decided on plain numbers.
pub struct DecodedImage {
    pub img: image::DynamicImage,
    pub width: u32,
    pub height: u32,
}

/// Whether the image crate decodes these bytes: a pure function of the
/// bytes alone — the enabled decoders are fixed with the build.
pub uninterp spec fn decodes(bytes: Seq<u8>) -> bool;

/// Relies on `image::load_from_memory`: decodes bytes of any supported
/// format, or reports why it cannot; success depends on the bytes alone,
/// and the dimensions are read off the decoded image.
#[verifier::external_body]
fn decode_image_call(bytes: &[u8]) -> (r: Result<DecodedImage, String>)
    ensures
        r is Ok <==> decodes(bytes@),
{
    match image::load_from_memory(bytes) {
        Ok(img) => {
            let width = img.width();
            let height = img.height();
            Ok(DecodedImage { img, width, height })
        },
        Err(e) => Err(e.to_string()),
    }
}

/// Relies on `Clone` for `image::DynamicImage`: an identical image; the
/// recorded dimensions are carried over unchanged.
#[verifier::external_body]
fn clone_image_call(img: &DecodedImage) -> (r: DecodedImage)
    ensures
        r.width == img.width,
        r.height == img.height,
{
    DecodedImage { img: img.img.clone(), width: img.width, height: img.height }
}

/// Relies on `image::DynamicImage::resize`: scales to the largest size that
/// fits within the given bounds, preserving the aspect ratio, with the
/// Lanczos filter — so the result never exceeds the bounds.
#[verifier::external_body]
fn resize_call(img: &DecodedImage, nwidth: u32, nheight: u32) -> (r: DecodedImage)
    requires
        1 <= nwidth,
        1 <= nheight,
    ensures
        r.width <= nwidth,
        r.height <= nheight,
{
    let out = img.img.resize(nwidth, nheight, image::imageops::FilterType::Lanczos3);
    let width = out.width();
    let height = out.height();
    DecodedImage { img: out, width, height }
}

/// Relies on `ravif::Encoder::encode_rgba`: encodes the image's pixels as
/// one AVIF file at the given quality (alpha quality alike) and speed
/// preset, or reports why it cannot. The encoder accepts qualities 1..=100
/// and speeds 1..=10 only and panics outside them.
#[verifier::external_body]
fn encode_avif_call(img: &DecodedImage, quality: u32, speed: u8) -> (r: Result<Vec<u8>, String>)
    requires
        1 <= quality <= 100,
        1 <= speed <= 10,
{
    let rgba = img.img.to_rgba8().into_raw();
    let w = img.img.width() as usize;
    let h = img.img.height() as usize;
    let mut pixels: Vec<rgb::RGBA8> = Vec::with_capacity(w * h);
    for c in rgba.chunks_exact(4) {
        pixels.push(rgb::RGBA8::new(c[0], c[1], c[2], c[3]));
    }
    let q = (quality as u16).into();
    let encoder = ravif::Encoder::new().with_quality(q).with_speed(speed).with_alpha_quality(q);
    match encoder.encode_rgba(ravif::Img::new(&pixels[..], w, h)) {
        Ok(out) => Ok(out.avif_file),
        Err(e) => Err(e.to_string()),
    }
}

/// One back-off step: the quality lowered by [`QUALITY_STEP`], never below
/// the floor.
pub open spec fn backed_off(q: int, min_quality: int) -> int {
    if q - QUALITY_STEP >= min_quality {
        q - QUALITY_STEP
    } else {
        min_quality
    }
}

/// Runtime form of [`backed_off`].
pub fn next_quality(q: u32, min_quality: u32) -> (r: u32)
    requires
        min_quality <= q,
    ensures
        r == backed_off(q as int, min_quality as int),
        min_quality <= r <= q,
{
    if q >= QUALITY_STEP && q - QUALITY_STEP >= min_quality {
        q - QUALITY_STEP
    } else {
        min_quality
    }
}

/// Where the back-off stops, as a function of the byte size each attempt
/// would produce: `sizes[0]` at the starting quality, `sizes[1]` one step
/// down, and so on. Yields the pair of the accepted attempt's index and the
/// accepted quality: the first attempt whose size is within `max` or whose
/// quality has reached the floor.
pub open spec fn backoff_pick(sizes: Seq<u64>, quality: int, min_quality: int, max: u64) -> (int, int)
    decreases quality - min_quality,
{
    if sizes.len() > 0 && sizes[0] > max && quality > min_quality {
        let rest = backoff_pick(sizes.skip(1), backed_off(quality, min_quality), min_quality, max);
        (rest.0 + 1, rest.1)
    } else {
        (0, quality)
    }
}

/// The size budget holds where the back-off stops: either the accepted
/// attempt's size is within the budget, or the accepted quality is exactly
/// the floor. The accepted quality never leaves `min_quality ..= quality`.
pub proof fn lemma_backoff_budget(sizes: Seq<u64>, quality: int, min_quality: int, max: u64)
    requires
        min_quality <= quality,
    ensures
        ({
            let p = backoff_pick(sizes, quality, min_quality, max);
            &&& min_quality <= p.1 <= quality
            &&& 0 <= p.0 <= sizes.len()
            &&& (p.0 < sizes.len() ==> (sizes[p.0] <= max || p.1 == min_quality))
        }),
    decreases quality - min_quality,
{
    if sizes.len() > 0 && sizes[0] > max && quality > min_quality {
        lemma_backoff_budget(sizes.skip(1), backed_off(quality, min_quality), min_quality, max);
        let rest = backoff_pick(sizes.skip(1), backed_off(quality, min_quality), min_quality, max);
        if rest.0 < sizes.skip(1).len() {
            assert(sizes.skip(1)[rest.0] == sizes[rest.0 + 1]);
        }
    }
}

/// Replays the back-off against a table of attempt sizes — the pure form of
/// the encode loop, answering exactly where [`backoff_pick`] stops: the
/// accepted quality and the accepted attempt's index. Attempts past the end
/// of the table accept the quality reached.
pub fn simulate_backoff(sizes: &Vec<u64>, quality: u32, min_quality: u32, max_file_size: u64) -> (r: (
    u32,
    usize,
))
    requires
        min_quality <= quality,
    ensures
        ({
            let p = backoff_pick(sizes@, quality as int, min_quality as int, max_file_size);
            &&& r.0 == p.1
            &&& r.1 == p.0
        }),
{
    let ghost q0 = quality as int;
    let mut q = quality;
    let mut i: usize = 0;
    let n = sizes.len();
    proof {
        assert(sizes@.skip(0) =~= sizes@);
    }
    while i < n && sizes[i] > max_file_size && q > min_quality
        invariant
            0 <= i <= n,
            n == sizes@.len(),
            min_quality <= q <= quality,
            ({
                let p = backoff_pick(sizes@.skip(i as int), q as int, min_quality as int, max_file_size);
                let p0 = backoff_pick(sizes@, q0, min_quality as int, max_file_size);
                q0 == quality && p0.0 == p.0 + i && p0.1 == p.1
            }),
        decreases n - i,
    {
        proof {
            assert(sizes@.skip(i as int)[0] == sizes@[i as int]);
            assert(sizes@.skip(i as int).skip(1) =~= sizes@.skip(i + 1));
        }
        q = next_quality(q, min_quality);
        i = i + 1;
    }
    proof {
        let suf = sizes@.skip(i as int);
        if i < n {
            assert(suf[0] == sizes@[i as int]);
        }
        assert(backoff_pick(suf, q as int, min_quality as int, max_file_size) == (0int, q as int));
    }
    (q, i)
}

/// Encodes one image under the size budget: starts at `quality`, steps down
/// five units at a time while the result is over `max_file_size`, and at the
/// floor accepts the oversized result rather than dropping the asset. On
/// success, the bytes and the accepted quality: the size is within the
/// budget, or the accepted quality is exactly `min_quality`.
pub fn encode_with_budget(img: &DecodedImage, quality: u32, min_quality: u32, max_file_size: u64) -> (r:
    Result<(Vec<u8>, u32), String>)
    requires
        1 <= min_quality <= quality <= 100,
    ensures
        (match r {
            Ok(p) => (p.0@.len() <= max_file_size || p.1 == min_quality) && min_quality <= p.1
                <= quality,
            Err(_) => true,
        }),
{
    let mut q = quality;
    loop
        invariant
            1 <= min_quality <= q <= quality,
            quality <= 100,
        decreases q - min_quality,
    {
        let encoded = match encode_avif_call(img, q, ENCODE_SPEED) {
            Ok(b) => b,
            Err(e) => {
                return Err(e);
            },
        };
        if encoded.len() as u64 <= max_file_size {
            return Ok((encoded, q));
        }
        if q <= min_quality {
            return Ok((encoded, q));
        }
        q = next_quality(q, min_quality);
    }
}

/// The height of a proportionally scaled image, rounded to nearest:
/// `round(height * max_width / width)`.
pub open spec fn scaled_height(width: int, height: int, max_width: int) -> int {
    (height * max_width + width / 2) / width
}

/// The resize rule: an image no wider than `max_width` keeps its dimensions;
/// a wider one is brought to `max_width` with its height scaled in
/// proportion, rounded to nearest — the aspect ratio is preserved.
pub fn resize_plan(width: u32, height: u32, max_width: u32) -> (r: (u32, u32))
    ensures
        width <= max_width ==> r == (width, height),
        width > max_width ==> r.0 == max_width && r.1 == scaled_height(
            width as int,
            height as int,
            max_width as int,
        ),
        r.0 <= width,
        r.1 <= height,
{
    if width <= max_width {
        (width, height)
    } else {
        proof {
            assert((height as int) * (max_width as int) + (width as int) / 2 <= u64::MAX)
                by (nonlinear_arith)
                requires
                    height <= u32::MAX,
                    max_width <= u32::MAX,
                    width <= u32::MAX,
            ;
        }
        let num: u64 = (height as u64) * (max_width as u64) + (width as u64) / 2;
        let h: u64 = num / (width as u64);
        proof {
            assert(h <= height) by (nonlinear_arith)
                requires
                    h == ((height as u64) * (max_width as u64) + (width as u64) / 2) as int / (width as u64) as int,
                    0 <= max_width < width,
                    1 <= width,
                    0 <= height,
            ;
        }
        (max_width, h as u32)
    }
}

/// Resizes an image to fit the configured width: untouched — an identical
/// copy — when it is not wider, and otherwise scaled to the planned
/// dimensions, which the result never exceeds.
pub fn resize_image(img: &DecodedImage, max_width: u32) -> (r: DecodedImage)
    requires
        1 <= max_width,
    ensures
        img.width <= max_width ==> r.width == img.width && r.height == img.height,
        img.width > max_width ==> r.width <= max_width,
{
    if img.width <= max_width {
        clone_image_call(img)
    } else {
        let plan = resize_plan(img.width, img.height, max_width);
        let bound_h = if plan.1 == 0 {
            1
        } else {
            plan.1
        };
        resize_call(img, plan.0, bound_h)
    }
}

/// Both derivatives of one original, with the quality each was accepted at.
pub struct DerivativePair {
    pub avif: Vec<u8>,
    pub avif_quality: u32,
    pub thumbnail: Vec<u8>,
    pub thumbnail_quality: u32,
}

/// Decodes one original and produces both derivatives from the same decoded
/// image: the primary resized to the configured maximum width, the thumbnail
/// to the thumbnail width, each encoded under the size budget. On success
/// each derivative's size is within the budget or its quality is exactly the
/// configured floor; undecodable bytes always fail, and an encode error
/// aborts this asset only.
pub fn do_conversion(original: &[u8], config: &ImageConfig) -> (r: Result<DerivativePair, String>)
    requires
        config.valid(),
        1 <= config.max_width,
        1 <= config.thumbnail_width,
    ensures
        (match r {
            Ok(p) => {
                &&& p.avif@.len() <= config.max_file_size || p.avif_quality == config.min_quality
                &&& config.min_quality <= p.avif_quality <= config.quality
                &&& p.thumbnail@.len() <= config.max_file_size || p.thumbnail_quality
                    == config.min_quality
                &&& config.min_quality <= p.thumbnail_quality <= config.quality
            },
            Err(_) => true,
        }),
        !decodes(original@) ==> r is Err,
{
    let img = match decode_image_call(original) {
        Ok(i) => i,
        Err(e) => {
            return Err(e);
        },
    };
    let resized = resize_image(&img, config.max_width);
    let (avif, avif_quality) = match encode_with_budget(
        &resized,
        config.quality,
        config.min_quality,
        config.max_file_size,
    ) {
        Ok(p) => p,
        Err(e) => {
            return Err(e);
        },
    };
    let thumb_img = resize_image(&img, config.thumbnail_width);
    let (thumbnail, thumbnail_quality) = match encode_with_budget(
        &thumb_img,
        config.quality,
        config.min_quality,
        config.max_file_size,
    ) {
        Ok(p) => p,
        Err(e) => {
            return Err(e);
        },
    };
    Ok(DerivativePair { avif, avif_quality, thumbnail, thumbnail_quality })
}

/// Where a record's primary derivative is stored:
/// `<root>/<album id>/<asset id>.avif`.
pub open spec fn avif_dest(root: Seq<char>, album_id: Seq<char>, asset_id: Seq<char>) -> Seq<char> {
    root + "/"@ + album_id + "/"@ + asset_id + ".avif"@
}

/// Where a record's thumbnail is stored:
/// `<root>/<album id>/<asset id>_thumb.avif`.
pub open spec fn thumb_dest(root: Seq<char>, album_id: Seq<char>, asset_id: Seq<char>) -> Seq<char> {
    root + "/"@ + album_id + "/"@ + asset_id + "_thumb.avif"@
}

/// Builds the destination path of a record's primary derivative.
pub fn avif_dest_path(root: &str, album_id: &str, asset_id: &str) -> (r: String)
    ensures
        r@ == avif_dest(root@, album_id@, asset_id@),
{
    String::from_str(root).concat("/").concat(album_id).concat("/").concat(asset_id).concat(".avif")
}

/// Builds the destination path of a record's thumbnail.
pub fn thumb_dest_path(root: &str, album_id: &str, asset_id: &str) -> (r: String)
    ensures
        r@ == thumb_dest(root@, album_id@, asset_id@),
{
    String::from_str(root).concat("/").concat(album_id).concat("/").concat(asset_id).concat("_thumb.avif")
}

/// What the outside encode work answered for one pending record.
#[derive(Clone, Copy, PartialEq, Eq, Structural)]
pub enum WorkOutcome {
    /// Both derivatives were produced.
    Encoded,
    /// Decoding or encoding failed; the record stays pending for retry.
    Failed,
}

/// The state a conversion pass threads through: records, paths present, and
/// the three counters.
pub ghost struct ConvertPhase {
    pub images: Seq<ImageModel>,
    pub paths: Seq<Seq<char>>,
    pub converted: nat,
    pub skipped: nat,
    pub failed: nat,
}

/// One pending record of a conversion pass. A record whose original is
/// missing on disk is skipped and stays pending. A record both of whose
/// derivative files already exist is marked converted without any encoding
/// and counted as skipped: the idempotent repair of a store that lagged
/// behind the disk. Otherwise the outside encode work decides: on success
/// both derivative files appear and the record is marked converted; on
/// failure the record is left pending for a future run.
pub open spec fn convert_step(
    st: ConvertPhase,
    root: Seq<char>,
    rec: ImageModel,
    outcome: WorkOutcome,
    now: i64,
) -> ConvertPhase {
    if rec.original_path is None || !has_path_seq(st.paths, rec.original_path->0) {
        ConvertPhase {
            images: st.images,
            paths: st.paths,
            converted: st.converted,
            skipped: st.skipped + 1,
            failed: st.failed,
        }
    } else {
        let av = avif_dest(root, rec.album_id, rec.id);
        let th = thumb_dest(root, rec.album_id, rec.id);
        if has_path_seq(st.paths, av) && has_path_seq(st.paths, th) {
            ConvertPhase {
                images: mark_converted_seq(st.images, rec.id, av, th, now),
                paths: st.paths,
                converted: st.converted,
                skipped: st.skipped + 1,
                failed: st.failed,
            }
        } else {
            match outcome {
                WorkOutcome::Encoded => ConvertPhase {
                    images: mark_converted_seq(st.images, rec.id, av, th, now),
                    paths: add_path_seq(add_path_seq(st.paths, av), th),
                    converted: st.converted + 1,
                    skipped: st.skipped,
                    failed: st.failed,
                },
                WorkOutcome::Failed => ConvertPhase {
                    images: st.images,
                    paths: st.paths,
                    converted: st.converted,
                    skipped: st.skipped,
                    failed: st.failed + 1,
                },
            }
        }
    }
}

/// A whole conversion pass over the pending records, in store order, each
/// consuming its own outside outcome.
pub open spec fn convert_phase(
    st: ConvertPhase,
    root: Seq<char>,
    recs: Seq<ImageModel>,
    outcomes: Seq<WorkOutcome>,
    now: i64,
) -> ConvertPhase
    decreases recs.len(),
{
    if recs.len() == 0 {
        st
    } else {
        convert_step(
            convert_phase(st, root, recs.drop_last(), outcomes.drop_last(), now),
            root,
            recs.last(),
            outcomes.last(),
            now,
        )
    }
}

/// The adaptive conversion engine, configured once per invocation.
pub struct AvifConverter {
    pub config: Config,
}

impl AvifConverter {
    /// An engine with this configuration.
    pub fn new(config: Config) -> (r: AvifConverter)
        ensures
            r.config == config,
    {
        AvifConverter { config }
    }

    /// One pass over the model state: every record eligible for conversion
    /// is processed in store order, each consuming its outside encode
    /// outcome — the work the process performs through [`do_conversion`] —
    /// and the whole effect equals [`convert_phase`].
    pub fn convert_all(&self, store: &mut StateStore, disk: &mut Disk, outcomes: &Vec<WorkOutcome>, now: i64) -> (r:
        ConversionResult)
        requires
            old(store).wf(),
            outcomes@.len() == unconverted_images(old(store).images_model()).len(),
        ensures
            final(store).wf(),
            ({
                let fin = convert_phase(
                    ConvertPhase {
                        images: old(store).images_model(),
                        paths: old(disk).paths(),
                        converted: 0,
                        skipped: 0,
                        failed: 0,
                    },
                    joined_path(self.config.storage.base_path@, self.config.storage.avif_dir@),
                    unconverted_images(old(store).images_model()),
                    outcomes@,
                    now,
                );
                &&& final(store).images_model() == fin.images
                &&& final(store).albums_model() == old(store).albums_model()
                &&& final(disk).paths() == fin.paths
                &&& r.converted == fin.converted
                &&& r.skipped == fin.skipped
                &&& r.failed == fin.failed
            }),
    {
        let ghost images0 = store.images_model();
        let ghost albums0 = store.albums_model();
        let ghost paths0 = disk.paths();
        let ghost init = ConvertPhase {
            images: images0,
            paths: paths0,
            converted: 0,
            skipped: 0,
            failed: 0,
        };
        let root = self.config.avif_path();
        let ghost rootv = root@;
        let pending = SyncedImage::get_unconverted(store);
        let ghost pendm = pending.deep_view();
        let ghost outm = outcomes@;

        let mut converted: usize = 0;
        let mut skipped: usize = 0;
        let mut failed: usize = 0;
        let n = pending.len();
        let mut k: usize = 0;
        while k < n
            invariant
                0 <= k <= n,
                n == pending@.len(),
                n == outcomes@.len(),
                pendm == pending.deep_view(),
                outm == outcomes@,
                rootv == root@,
                store.wf(),
                store.albums_model() == albums0,
                converted + skipped + failed == k,
                ({
                    let st = convert_phase(init, rootv, pendm.take(k as int), outm.take(k as int), now);
                    &&& store.images_model() == st.images
                    &&& disk.paths() == st.paths
                    &&& converted == st.converted
                    &&& skipped == st.skipped
                    &&& failed == st.failed
                }),
                init == (ConvertPhase {
                    images: images0,
                    paths: paths0,
                    converted: 0nat,
                    skipped: 0nat,
                    failed: 0nat,
                }),
            decreases n - k,
        {
            let ghost pre = convert_phase(init, rootv, pendm.take(k as int), outm.take(k as int), now);
            proof {
                assert(pendm.take(k + 1).drop_last() =~= pendm.take(k as int));
                assert(outm.take(k + 1).drop_last() =~= outm.take(k as int));
                assert(pendm.take(k + 1).last() == pendm[k as int]);
                assert(outm.take(k + 1).last() == outm[k as int]);
                assert(convert_phase(init, rootv, pendm.take(k + 1), outm.take(k + 1), now)
                    == convert_step(pre, rootv, pendm[k as int], outm[k as int], now));
            }
            let rec = &pending[k];
            proof {
                assert(pendm[k as int] == rec@);
            }
            let orig_on_disk: bool = match &rec.original_path {
                Some(op) => disk.file_exists(op.as_str()),
                None => false,
            };
            if !orig_on_disk {
                skipped = skipped + 1;
            } else {
                let av = avif_dest_path(root.as_str(), rec.album_id.as_str(), rec.id.as_str());
                let th = thumb_dest_path(root.as_str(), rec.album_id.as_str(), rec.id.as_str());
                if disk.file_exists(av.as_str()) && disk.file_exists(th.as_str()) {
                    SyncedImage::mark_converted(store, rec.id.as_str(), av.as_str(), th.as_str(), now);
                    skipped = skipped + 1;
                } else {
                    match outcomes[k] {
                        WorkOutcome::Encoded => {
                            disk.write(av.as_str());
                            disk.write(th.as_str());
                            SyncedImage::mark_converted(
                                store,
                                rec.id.as_str(),
                                av.as_str(),
                                th.as_str(),
                                now,
                            );
                            converted = converted + 1;
                        },
                        WorkOutcome::Failed => {
                            failed = failed + 1;
                        },
                    }
                }
            }
            k = k + 1;
        }
        proof {
            assert(pendm.take(n as int) =~= pendm);
            assert(outm.take(n as int) =~= outm);
        }
        ConversionResult { converted, skipped, failed }
    }
}

impl AvifConverter {
    /// The reindex operation: discards the whole derivative subtree, clears
    /// the conversion fields of every record, and runs one conversion pass
    /// over the records then pending — full reconversion from the originals
    /// already on disk. The caller supplies one encode outcome per record
    /// that holds a downloaded original after the reset.
    pub fn reindex(&self, store: &mut StateStore, disk: &mut Disk, outcomes: &Vec<WorkOutcome>, now: i64) -> (r:
        ConversionResult)
        requires
            old(store).wf(),
            outcomes@.len() == unconverted_images(
                clear_conversions_seq(old(store).images_model()),
            ).len(),
        ensures
            final(store).wf(),
            ({
                let root = joined_path(self.config.storage.base_path@, self.config.storage.avif_dir@);
                let cleared = clear_conversions_seq(old(store).images_model());
                let pruned = remove_subtree_seq(old(disk).paths(), root + "/"@);
                let fin = convert_phase(
                    ConvertPhase { images: cleared, paths: pruned, converted: 0, skipped: 0, failed: 0 },
                    root,
                    unconverted_images(cleared),
                    outcomes@,
                    now,
                );
                &&& final(store).images_model() == fin.images
                &&& final(store).albums_model() == old(store).albums_model()
                &&& final(disk).paths() == fin.paths
                &&& r.converted == fin.converted
                &&& r.skipped == fin.skipped
                &&& r.failed == fin.failed
            }),
    {
        let root = self.config.avif_path();
        let prefix = root.concat("/");
        disk.remove_subtree(prefix.as_str());
        SyncedImage::clear_all_conversions(store);
        self.convert_all(store, disk, outcomes, now)
    }
}

/// The records after each of a batch, in order, was marked converted with
/// its derivative destinations.
pub open spec fn mark_all_converted(
    images: Seq<ImageModel>,
    root: Seq<char>,
    recs: Seq<ImageModel>,
    now: i64,
) -> Seq<ImageModel>
    decreases recs.len(),
{
    if recs.len() == 0 {
        images
    } else {
        let r = recs.last();
        mark_converted_seq(
            mark_all_converted(images, root, recs.drop_last(), now),
            r.id,
            avif_dest(root, r.album_id, r.id),
            thumb_dest(root, r.album_id, r.id),
            now,
        )
    }
}

/// Conversion repair is idempotent work avoidance: over records whose
/// original and both derivative files already exist, a pass encodes nothing
/// and touches no file — whatever the outside outcomes would have said — it
/// only marks each record converted and counts it as skipped.
pub proof fn lemma_convert_repair(
    st: ConvertPhase,
    root: Seq<char>,
    recs: Seq<ImageModel>,
    outcomes: Seq<WorkOutcome>,
    now: i64,
)
    requires
        forall|k: int|
            0 <= k < recs.len() ==> (#[trigger] recs[k]).original_path is Some && has_path_seq(
                st.paths,
                recs[k].original_path->0,
            ) && has_path_seq(st.paths, avif_dest(root, recs[k].album_id, recs[k].id)) && has_path_seq(
                st.paths,
                thumb_dest(root, recs[k].album_id, recs[k].id),
            ),
    ensures
        ({
            let fin = convert_phase(st, root, recs, outcomes, now);
            &&& fin.converted == st.converted
            &&& fin.failed == st.failed
            &&& fin.skipped == st.skipped + recs.len()
            &&& fin.paths == st.paths
            &&& fin.images == mark_all_converted(st.images, root, recs, now)
        }),
    decreases recs.len(),
{
    if recs.len() > 0 {
        let d = recs.drop_last();
        assert forall|k: int|
            0 <= k < d.len() implies (#[trigger] d[k]).original_path is Some && has_path_seq(
            st.paths,
            d[k].original_path->0,
        ) && has_path_seq(st.paths, avif_dest(root, d[k].album_id, d[k].id)) && has_path_seq(
            st.paths,
            thumb_dest(root, d[k].album_id, d[k].id),
        ) by {
            assert(d[k] == recs[k]);
        }
        lemma_convert_repair(st, root, d, outcomes.drop_last(), now);
        assert(recs[recs.len() - 1] == recs.last());
    }
}

} // verus!
