//! The transform engine: applies an ordered operation list to a pixel
//! buffer, operation by operation, and encodes the result.

use vstd::prelude::*;

use crate::blend::adjust_contrast;
use crate::blend::blend_grid;
use crate::blend::contrast_grid;
use crate::blend::mix_with_color;
use crate::blend::overlay;
use crate::blend::overlay_grid;
use crate::blend::Tint;
use crate::codec::filter_code;
use crate::ops::Contrast;
use crate::ops::Crop;
use crate::ops::Filter;
use crate::ops::FilterPreset;
use crate::ops::Fliph;
use crate::ops::Flipv;
use crate::ops::ImageSpec;
use crate::ops::Resize;
use crate::ops::ResizeType;
use crate::ops::SampleFilter;
use crate::ops::Spec;
use crate::ops::SpecData;
use crate::ops::Watermark;
use crate::pixel::buf_bytes;
use crate::pixel::crop_ok;
use crate::pixel::flip_h_grid;
use crate::pixel::flip_v_grid;
use crate::pixel::imin;
use crate::pixel::rot270_grid;
use crate::pixel::rot90_grid;
use crate::pixel::Pixel;
use crate::pixel::PixelBuffer;
use crate::seam::dp_min_upto;
use crate::seam::find_vertical_seam;
use crate::seam::remove_seam_grid;
use crate::seam::seam_cost;
use crate::seam::valid_seam;

verus! {

/// The container format of the response image.
#[derive(Clone, Copy, PartialEq, Eq, Structural, Debug)]
pub enum OutputFormat {
    Png,
    Jpeg,
}

/// Why a request could not be served from fetched bytes.
#[derive(Clone, Copy, PartialEq, Eq, Structural, Debug)]
pub enum ProcessError {
    /// The fetched bytes are not a decodable image.
    ImageDecode,
    /// The transformed buffer could not be encoded.
    ImageEncode,
}

/// What the image crate decodes the fetched bytes to, as an RGBA8
/// grid: dimensions and interleaved channel bytes, or nothing when the
/// bytes are not a supported image; a function of the bytes alone.
pub uninterp spec fn decoded_rgba_of(bytes: Seq<u8>) -> Option<(u32, u32, Seq<u8>)>;

/// Relies on image's `load_from_memory` and `to_rgba8`: the decoded
/// RGBA8 grid is a function of the bytes alone, and its raw buffer
/// holds exactly four bytes per pixel.
#[verifier::external_body]
fn decode_image_bytes(data: &Vec<u8>) -> (r: Result<(u32, u32, Vec<u8>), ()>)
    ensures
        r matches Ok(t) ==> decoded_rgba_of(data@) == Some((t.0, t.1, t.2@)) && t.2@.len() == 4 * (
        (t.0 as int) * (t.1 as int)),
        r is Err ==> decoded_rgba_of(data@) is None,
{
    match image::load_from_memory(data.as_slice()) {
        Ok(img) => {
            let rgba = img.to_rgba8();
            let (w, h) = rgba.dimensions();
            Ok((w, h, rgba.into_raw()))
        },
        Err(_) => Err(()),
    }
}

/// What image's resampler makes of an RGBA8 grid at the requested
/// dimensions and kernel; a function of its arguments alone.
pub uninterp spec fn resampled_of(bytes: Seq<u8>, w: u32, h: u32, tw: u32, th: u32, filter: u8)
    -> Seq<u8>;

/// Relies on image's `imageops::resize`: the output buffer has exactly
/// the requested dimensions, for every kernel, and depends only on the
/// input grid, the dimensions and the kernel.
#[verifier::external_body]
fn resize_rgba(raw: &Vec<u8>, w: u32, h: u32, tw: u32, th: u32, filter: SampleFilter) -> (r: Vec<
    u8,
>)
    requires
        raw@.len() == 4 * ((w as int) * (h as int)),
    ensures
        r@ == resampled_of(raw@, w, h, tw, th, filter_code(filter) as u8),
        r@.len() == 4 * ((tw as int) * (th as int)),
{
    let img = image::RgbaImage::from_raw(w, h, raw.clone()).unwrap();
    let kernel = match filter {
        SampleFilter::Undefined => image::imageops::FilterType::Nearest,
        SampleFilter::Nearest => image::imageops::FilterType::Nearest,
        SampleFilter::Triangle => image::imageops::FilterType::Triangle,
        SampleFilter::CatmullRom => image::imageops::FilterType::CatmullRom,
        SampleFilter::Gaussian => image::imageops::FilterType::Gaussian,
        SampleFilter::Lanczos3 => image::imageops::FilterType::Lanczos3,
    };
    image::imageops::resize(&img, tw, th, kernel).into_raw()
}

/// What image's PNG encoder makes of an RGBA8 grid; a function of its
/// arguments alone.
pub uninterp spec fn png_encoding_of(bytes: Seq<u8>, w: u32, h: u32) -> Seq<u8>;

/// Relies on image's `write_to` with the PNG format: the encoding of a
/// given RGBA8 grid is a function of the grid and dimensions alone,
/// all output goes to an in-memory buffer, and for an RGBA8 buffer of
/// the exact length the encoder fails only on a zero dimension.
#[verifier::external_body]
fn encode_png_rgba(raw: &Vec<u8>, w: u32, h: u32) -> (r: Result<Vec<u8>, ()>)
    requires
        raw@.len() == 4 * ((w as int) * (h as int)),
    ensures
        r matches Ok(v) ==> v@ == png_encoding_of(raw@, w, h),
        r is Ok <==> (w >= 1 && h >= 1),
{
    let img = image::RgbaImage::from_raw(w, h, raw.clone()).unwrap();
    let mut out: Vec<u8> = Vec::new();
    let mut cur = std::io::Cursor::new(&mut out);
    match image::DynamicImage::ImageRgba8(img).write_to(&mut cur, image::ImageFormat::Png) {
        Ok(()) => Ok(out),
        Err(_) => Err(()),
    }
}

/// What image's JPEG encoder makes of an RGBA8 grid after its alpha is
/// discarded; a function of its arguments alone.
pub uninterp spec fn jpeg_encoding_of(bytes: Seq<u8>, w: u32, h: u32) -> Seq<u8>;

/// Relies on image's `to_rgb8` (JPEG has no alpha: the buffer is
/// flattened to RGB first, as the format requires) and `write_to` with
/// the JPEG format: the encoding is a function of the grid and
/// dimensions alone, all output goes to an in-memory buffer, and the
/// encoder fails exactly when a dimension lies outside 1..=65535.
#[verifier::external_body]
fn encode_jpeg_rgba(raw: &Vec<u8>, w: u32, h: u32) -> (r: Result<Vec<u8>, ()>)
    requires
        raw@.len() == 4 * ((w as int) * (h as int)),
    ensures
        r matches Ok(v) ==> v@ == jpeg_encoding_of(raw@, w, h),
        r is Ok <==> (1 <= w && w <= 65535 && 1 <= h && h <= 65535),
{
    let img = image::RgbaImage::from_raw(w, h, raw.clone()).unwrap();
    let rgb = image::DynamicImage::ImageRgba8(img).to_rgb8();
    let mut out: Vec<u8> = Vec::new();
    let mut cur = std::io::Cursor::new(&mut out);
    match image::DynamicImage::ImageRgb8(rgb).write_to(&mut cur, image::ImageFormat::Jpeg) {
        Ok(()) => Ok(out),
        Err(_) => Err(()),
    }
}

/// Owns the pixel buffer of one request, together with the process-wide
/// watermark asset it composites on demand.
pub struct ImageEngine {
    pub buf: PixelBuffer,
    pub mark: PixelBuffer,
}

/// The fixed tint of each filter preset.
pub open spec fn tint_of(p: FilterPreset) -> Tint {
    match p {
        FilterPreset::Unspecified => Tint { r: 0, g: 89, b: 173 },
        FilterPreset::Oceanic => Tint { r: 0, g: 89, b: 173 },
        FilterPreset::Islands => Tint { r: 0, g: 24, b: 95 },
        FilterPreset::Marine => Tint { r: 0, g: 14, b: 119 },
    }
}

impl ImageEngine {
    pub open spec fn wf(self) -> bool {
        self.buf.wf() && self.mark.wf()
    }

    /// Builds an engine from fetched source bytes and the watermark
    /// asset; fails exactly when the bytes are not a decodable image.
    pub fn from_bytes(data: &Vec<u8>, watermark: PixelBuffer) -> (r: Result<
        ImageEngine,
        ProcessError,
    >)
        requires
            watermark.wf(),
        ensures
            decoded_rgba_of(data@) matches Some(t) ==> (r matches Ok(e) && e.wf() && e.mark
                == watermark && e.buf.width == t.0 && e.buf.height == t.1 && buf_bytes(
                e.buf.grid()) == t.2),
            decoded_rgba_of(data@) is None ==> r == Err::<ImageEngine, ProcessError>(
                ProcessError::ImageDecode,
            ),
    {
        let (w, h, raw) = match decode_image_bytes(data) {
            Ok(t) => t,
            Err(()) => {
                return Err(ProcessError::ImageDecode);
            },
        };
        match PixelBuffer::from_raw(w, h, raw) {
            Some(buf) => Ok(ImageEngine { buf, mark: watermark }),
            None => {
                proof {
                    assert(false);
                }
                Err(ProcessError::ImageDecode)
            },
        }
    }
}

/// What a crop operation does to an engine.
pub open spec fn crop_tf_ok(pre: ImageEngine, c: Crop, post: ImageEngine) -> bool {
    &&& post.mark == pre.mark
    &&& post.buf.wf()
    &&& crop_ok(pre.buf, c.x1, c.y1, c.x2, c.y2, post.buf)
}

/// What a contrast operation does to an engine.
pub open spec fn contrast_tf_ok(pre: ImageEngine, c: Contrast, post: ImageEngine) -> bool {
    &&& post.mark == pre.mark
    &&& post.buf.wf()
    &&& post.buf.width == pre.buf.width
    &&& post.buf.height == pre.buf.height
    &&& post.buf.grid() == contrast_grid(pre.buf.grid(), c.contrast)
}

/// What a filter operation does to an engine: a blend with the
/// preset's tint at fixed opacity 0.2.
pub open spec fn filter_tf_ok(pre: ImageEngine, f: Filter, post: ImageEngine) -> bool {
    &&& post.mark == pre.mark
    &&& post.buf.wf()
    &&& post.buf.width == pre.buf.width
    &&& post.buf.height == pre.buf.height
    &&& post.buf.grid() == blend_grid(pre.buf.grid(), tint_of(f.filter), 20)
}

/// What a horizontal flip does to an engine.
pub open spec fn fliph_tf_ok(pre: ImageEngine, post: ImageEngine) -> bool {
    &&& post.mark == pre.mark
    &&& post.buf.wf()
    &&& post.buf.width == pre.buf.width
    &&& post.buf.height == pre.buf.height
    &&& post.buf.grid() == flip_h_grid(pre.buf.grid())
}

/// What a vertical flip does to an engine.
pub open spec fn flipv_tf_ok(pre: ImageEngine, post: ImageEngine) -> bool {
    &&& post.mark == pre.mark
    &&& post.buf.wf()
    &&& post.buf.width == pre.buf.width
    &&& post.buf.height == pre.buf.height
    &&& post.buf.grid() == flip_v_grid(pre.buf.grid())
}

/// What a watermark operation does to an engine: the asset composited
/// source-over with its top-left at the given point.
pub open spec fn watermark_tf_ok(pre: ImageEngine, wm: Watermark, post: ImageEngine) -> bool {
    &&& post.mark == pre.mark
    &&& post.buf.wf()
    &&& post.buf.width == pre.buf.width
    &&& post.buf.height == pre.buf.height
    &&& post.buf.grid() == overlay_grid(pre.buf.grid(), pre.mark.grid(), wm.x as int, wm.y as int)
}

/// A grid reached from `g0` (of `w0` by `h` pixels) by removing `k`
/// least-energy vertical seams, one at a time, the energies recomputed
/// after each removal.
pub open spec fn carved_w(g0: Seq<Seq<Pixel>>, w0: int, h: int, k: int, g1: Seq<Seq<Pixel>>)
    -> bool
    decreases k,
{
    if k <= 0 {
        g1 == g0
    } else {
        exists|p: Seq<u32>|
            {
                &&& valid_seam(p, w0, h)
                &&& (h > 0 ==> seam_cost(g0, w0, h, p) == dp_min_upto(g0, w0, h, w0))
                &&& carved_w(remove_seam_grid(g0, p), w0 - 1, h, k - 1, g1)
            }
    }
}

/// What a seam-carve resize does to an engine: shrink-only. The width
/// loses `w - min(w, tw)` seams; if the height must shrink, the buffer
/// is turned a quarter clockwise, carved the same way, and turned
/// back.
pub open spec fn seam_tf_ok(pre: ImageEngine, tw: u32, th: u32, post: ImageEngine) -> bool {
    let w = pre.buf.width as int;
    let h = pre.buf.height as int;
    let nw = imin(w, tw as int);
    let nh = imin(h, th as int);
    &&& post.mark == pre.mark
    &&& post.buf.wf()
    &&& post.buf.width == nw
    &&& post.buf.height == nh
    &&& if nh == h {
        carved_w(pre.buf.grid(), w, h, w - nw, post.buf.grid())
    } else {
        exists|mid: Seq<Seq<Pixel>>, mid2: Seq<Seq<Pixel>>|
            {
                &&& carved_w(pre.buf.grid(), w, h, w - nw, mid)
                &&& #[trigger] carved_w(rot90_grid(mid, nw, h), h, nw, h - nh, mid2)
                &&& post.buf.grid() == rot270_grid(mid2, nh, nw)
            }
    }
}

/// What a resize operation does to an engine: a normal resize yields
/// exactly the requested dimensions through the chosen kernel; a
/// seam-carve resize shrinks content-aware.
pub open spec fn resize_tf_ok(pre: ImageEngine, rz: Resize, post: ImageEngine) -> bool {
    match rz.rtype {
        ResizeType::Normal => {
            &&& post.mark == pre.mark
            &&& post.buf.wf()
            &&& post.buf.width == rz.width
            &&& post.buf.height == rz.height
            &&& buf_bytes(post.buf.grid()) == resampled_of(buf_bytes(pre.buf.grid()),
                pre.buf.width, pre.buf.height, rz.width, rz.height, filter_code(rz.filter) as u8)
        },
        ResizeType::SeamCarve => seam_tf_ok(pre, rz.width, rz.height, post),
    }
}

/// One engine step per operation kind, with exhaustive matching; an
/// empty step changes nothing.
pub open spec fn op_ok(pre: ImageEngine, sp: Spec, post: ImageEngine) -> bool {
    match sp.data {
        Option::None => post == pre,
        Option::Some(SpecData::Resize(rz)) => resize_tf_ok(pre, rz, post),
        Option::Some(SpecData::Crop(c)) => crop_tf_ok(pre, c, post),
        Option::Some(SpecData::Flipv(_)) => flipv_tf_ok(pre, post),
        Option::Some(SpecData::Fliph(_)) => fliph_tf_ok(pre, post),
        Option::Some(SpecData::Contrast(c)) => contrast_tf_ok(pre, c, post),
        Option::Some(SpecData::Filter(f)) => filter_tf_ok(pre, f, post),
        Option::Some(SpecData::Watermark(wm)) => watermark_tf_ok(pre, wm, post),
    }
}

/// The buffer dimensions after one operation: crops clamp, resizes
/// set or shrink, everything else keeps the canvas.
pub open spec fn dims_after_op(w: int, h: int, sp: Spec) -> (int, int) {
    match sp.data {
        Option::None => (w, h),
        Option::Some(SpecData::Resize(rz)) => match rz.rtype {
            ResizeType::Normal => (rz.width as int, rz.height as int),
            ResizeType::SeamCarve => (imin(w, rz.width as int), imin(h, rz.height as int)),
        },
        Option::Some(SpecData::Crop(c)) => {
            let cx1 = imin(c.x1 as int, w);
            let cy1 = imin(c.y1 as int, h);
            let cx2 = imin(c.x2 as int, w);
            let cy2 = imin(c.y2 as int, h);
            if cx2 <= cx1 || cy2 <= cy1 {
                (w, h)
            } else {
                (cx2 - cx1, cy2 - cy1)
            }
        },
        Option::Some(SpecData::Flipv(_)) => (w, h),
        Option::Some(SpecData::Fliph(_)) => (w, h),
        Option::Some(SpecData::Contrast(_)) => (w, h),
        Option::Some(SpecData::Filter(_)) => (w, h),
        Option::Some(SpecData::Watermark(_)) => (w, h),
    }
}

/// The buffer dimensions after a whole operation list, applied in
/// order; a function of the starting dimensions and the list alone.
pub open spec fn dims_after(w: int, h: int, l: Seq<Spec>) -> (int, int)
    decreases l.len(),
{
    if l.len() == 0 {
        (w, h)
    } else {
        let d = dims_after_op(w, h, l[0]);
        dims_after(d.0, d.1, l.drop_first())
    }
}

/// An engine state reachable by applying the operations in list order.
pub open spec fn ops_ok(pre: ImageEngine, l: Seq<Spec>, post: ImageEngine) -> bool
    decreases l.len(),
{
    if l.len() == 0 {
        post == pre
    } else {
        exists|mid: ImageEngine| #[trigger] op_ok(pre, l[0], mid) && ops_ok(mid, l.drop_first(),
            post)
    }
}

/// Any state an operation list can reach has exactly the dimensions
/// the list dictates.
pub proof fn lemma_ops_dims(pre: ImageEngine, l: Seq<Spec>, post: ImageEngine)
    requires
        ops_ok(pre, l, post),
    ensures
        (post.buf.width as int, post.buf.height as int) == dims_after(pre.buf.width as int,
            pre.buf.height as int, l),
    decreases l.len(),
{
    if l.len() == 0 {
    } else {
        let mid = choose|mid: ImageEngine| #[trigger] op_ok(pre, l[0], mid) && ops_ok(mid,
            l.drop_first(), post);
        assert((mid.buf.width as int, mid.buf.height as int) == dims_after_op(pre.buf.width
            as int, pre.buf.height as int, l[0]));
        lemma_ops_dims(mid, l.drop_first(), post);
    }
}

/// Extending an operation chain by one applied operation.
proof fn lemma_ops_snoc(pre: ImageEngine, l: Seq<Spec>, sp: Spec, mid: ImageEngine,
    post: ImageEngine)
    requires
        ops_ok(pre, l, mid),
        op_ok(mid, sp, post),
    ensures
        ops_ok(pre, l.push(sp), post),
    decreases l.len(),
{
    let s = l.push(sp);
    if l.len() == 0 {
        assert(mid == pre);
        assert(s[0] == sp);
        assert(s.drop_first() =~= Seq::<Spec>::empty());
        assert(op_ok(pre, s[0], post) && ops_ok(post, s.drop_first(), post));
    } else {
        let m1 = choose|m1: ImageEngine| #[trigger] op_ok(pre, l[0], m1) && ops_ok(m1,
            l.drop_first(), mid);
        lemma_ops_snoc(m1, l.drop_first(), sp, mid, post);
        assert(s.drop_first() =~= l.drop_first().push(sp));
        assert(s[0] == l[0]);
        assert(op_ok(pre, s[0], m1) && ops_ok(m1, s.drop_first(), post));
    }
}

/// The engine's entry points: apply an operation list, then produce
/// the encoded response bytes.
pub trait Engine where Self: Sized {
    spec fn apply_req(pre: Self, specs: Seq<Spec>) -> bool;

    spec fn apply_ok(pre: Self, specs: Seq<Spec>, post: Self) -> bool;

    fn apply(&mut self, specs: &Vec<Spec>)
        requires
            Self::apply_req(*old(self), specs@),
        ensures
            Self::apply_ok(*old(self), specs@, *final(self)),
    ;
}

/// One operation applied in place, with its exact per-operation
/// contract.
pub trait SpecTransform<T> where Self: Sized {
    spec fn transform_req(pre: Self, op: T) -> bool;

    spec fn transform_ok(pre: Self, op: T, post: Self) -> bool;

    fn transform(&mut self, op: T)
        requires
            Self::transform_req(*old(self), op),
        ensures
            Self::transform_ok(*old(self), op, *final(self)),
    ;
}

impl<'a> SpecTransform<&'a Crop> for ImageEngine {
    open spec fn transform_req(pre: ImageEngine, op: &'a Crop) -> bool {
        pre.wf()
    }

    open spec fn transform_ok(pre: ImageEngine, op: &'a Crop, post: ImageEngine) -> bool {
        crop_tf_ok(pre, *op, post)
    }

    fn transform(&mut self, op: &'a Crop) {
        self.buf.crop(op.x1, op.y1, op.x2, op.y2);
    }
}

impl<'a> SpecTransform<&'a Contrast> for ImageEngine {
    open spec fn transform_req(pre: ImageEngine, op: &'a Contrast) -> bool {
        pre.wf()
    }

    open spec fn transform_ok(pre: ImageEngine, op: &'a Contrast, post: ImageEngine) -> bool {
        contrast_tf_ok(pre, *op, post)
    }

    fn transform(&mut self, op: &'a Contrast) {
        adjust_contrast(&mut self.buf, op.contrast);
    }
}

impl FilterPreset {
    /// Blends the preset's fixed tint over the whole image at the
    /// fixed opacity 0.2.
    pub fn apply(self, img: &mut PixelBuffer)
        requires
            old(img).wf(),
        ensures
            final(img).wf(),
            final(img).width == old(img).width,
            final(img).height == old(img).height,
            final(img).grid() == blend_grid(old(img).grid(), tint_of(self), 20),
    {
        let tint = match self {
            FilterPreset::Unspecified => Tint { r: 0, g: 89, b: 173 },
            FilterPreset::Oceanic => Tint { r: 0, g: 89, b: 173 },
            FilterPreset::Islands => Tint { r: 0, g: 24, b: 95 },
            FilterPreset::Marine => Tint { r: 0, g: 14, b: 119 },
        };
        mix_with_color(img, tint, 20);
    }
}

impl<'a> SpecTransform<&'a Filter> for ImageEngine {
    open spec fn transform_req(pre: ImageEngine, op: &'a Filter) -> bool {
        pre.wf()
    }

    open spec fn transform_ok(pre: ImageEngine, op: &'a Filter, post: ImageEngine) -> bool {
        filter_tf_ok(pre, *op, post)
    }

    fn transform(&mut self, op: &'a Filter) {
        op.filter.apply(&mut self.buf);
    }
}

impl<'a> SpecTransform<&'a Fliph> for ImageEngine {
    open spec fn transform_req(pre: ImageEngine, op: &'a Fliph) -> bool {
        pre.wf()
    }

    open spec fn transform_ok(pre: ImageEngine, op: &'a Fliph, post: ImageEngine) -> bool {
        fliph_tf_ok(pre, post)
    }

    fn transform(&mut self, op: &'a Fliph) {
        self.buf.flip_h();
    }
}

impl<'a> SpecTransform<&'a Flipv> for ImageEngine {
    open spec fn transform_req(pre: ImageEngine, op: &'a Flipv) -> bool {
        pre.wf()
    }

    open spec fn transform_ok(pre: ImageEngine, op: &'a Flipv, post: ImageEngine) -> bool {
        flipv_tf_ok(pre, post)
    }

    fn transform(&mut self, op: &'a Flipv) {
        self.buf.flip_v();
    }
}

impl<'a> SpecTransform<&'a Watermark> for ImageEngine {
    open spec fn transform_req(pre: ImageEngine, op: &'a Watermark) -> bool {
        pre.wf()
    }

    open spec fn transform_ok(pre: ImageEngine, op: &'a Watermark, post: ImageEngine) -> bool {
        watermark_tf_ok(pre, *op, post)
    }

    fn transform(&mut self, op: &'a Watermark) {
        overlay(&mut self.buf, &self.mark, op.x, op.y);
    }
}

/// Extending a carving chain by one more seam removal.
proof fn lemma_carved_extend(g0: Seq<Seq<Pixel>>, w0: int, h: int, k: int, g1: Seq<Seq<Pixel>>,
    p: Seq<u32>, g2: Seq<Seq<Pixel>>)
    requires
        k >= 0,
        carved_w(g0, w0, h, k, g1),
        valid_seam(p, w0 - k, h),
        h > 0 ==> seam_cost(g1, w0 - k, h, p) == dp_min_upto(g1, w0 - k, h, w0 - k),
        g2 == remove_seam_grid(g1, p),
    ensures
        carved_w(g0, w0, h, k + 1, g2),
    decreases k,
{
    if k == 0 {
        assert(g1 == g0);
        assert(carved_w(remove_seam_grid(g0, p), w0 - 1, h, 0, g2));
    } else {
        let q = choose|q: Seq<u32>|
            {
                &&& valid_seam(q, w0, h)
                &&& (h > 0 ==> seam_cost(g0, w0, h, q) == dp_min_upto(g0, w0, h, w0))
                &&& carved_w(remove_seam_grid(g0, q), w0 - 1, h, k - 1, g1)
            };
        lemma_carved_extend(remove_seam_grid(g0, q), w0 - 1, h, k - 1, g1, p, g2);
    }
}

impl<'a> SpecTransform<&'a Resize> for ImageEngine {
    open spec fn transform_req(pre: ImageEngine, op: &'a Resize) -> bool {
        pre.wf()
    }

    open spec fn transform_ok(pre: ImageEngine, op: &'a Resize, post: ImageEngine) -> bool {
        resize_tf_ok(pre, *op, post)
    }

    #[verifier::rlimit(100)]
    #[verifier::spinoff_prover]
    fn transform(&mut self, op: &'a Resize) {
        match op.rtype {
            ResizeType::Normal => {
                let raw = self.buf.to_raw();
                proof {
                    crate::pixel::lemma_buf_bytes_len(self.buf.grid(), self.buf.width as int);
                    assert((self.buf.width as int) * (self.buf.grid().len() as int) == (
                    self.buf.width as int) * (self.buf.height as int));
                }
                let out = resize_rgba(&raw, self.buf.width, self.buf.height, op.width, op.height,
                    op.filter);
                match PixelBuffer::from_raw(op.width, op.height, out) {
                    Some(nb) => {
                        self.buf = nb;
                    },
                    None => {
                        proof {
                            assert(false);
                        }
                    },
                }
            },
            ResizeType::SeamCarve => {
                let w = self.buf.width;
                let h = self.buf.height;
                let nw = if op.width < w {
                    op.width
                } else {
                    w
                };
                let nh = if op.height < h {
                    op.height
                } else {
                    h
                };
                let diff_w = w - nw;
                let diff_h = h - nh;
                let ghost g_start = self.buf.grid();
                let ghost pre = *self;
                let mut i: u32 = 0;
                while i < diff_w
                    invariant
                        0 <= i <= diff_w,
                        diff_w == w - nw,
                        nw <= w,
                        self.wf(),
                        self.mark == pre.mark,
                        self.buf.width == w - i,
                        self.buf.height == h,
                        g_start == pre.buf.grid(),
                        w == pre.buf.width,
                        h == pre.buf.height,
                        carved_w(g_start, w as int, h as int, i as int, self.buf.grid()),
                    decreases diff_w - i,
                {
                    let ghost g_cur = self.buf.grid();
                    let path = find_vertical_seam(&self.buf);
                    self.buf.remove_vertical_seam(&path);
                    proof {
                        lemma_carved_extend(g_start, w as int, h as int, i as int, g_cur, path@,
                            self.buf.grid());
                    }
                    i = i + 1;
                }
                let ghost mid = self.buf.grid();
                if diff_h > 0 {
                    self.buf.rotate90();
                    let ghost g_rot = self.buf.grid();
                    let mut j: u32 = 0;
                    while j < diff_h
                        invariant
                            0 <= j <= diff_h,
                            diff_h == h - nh,
                            nh <= h,
                            nw <= w,
                            self.wf(),
                            self.mark == pre.mark,
                            self.buf.width == h - j,
                            self.buf.height == nw,
                            g_rot == rot90_grid(mid, nw as int, h as int),
                            carved_w(g_rot, h as int, nw as int, j as int, self.buf.grid()),
                        decreases diff_h - j,
                    {
                        let ghost g_cur = self.buf.grid();
                        let path = find_vertical_seam(&self.buf);
                        self.buf.remove_vertical_seam(&path);
                        proof {
                            lemma_carved_extend(g_rot, h as int, nw as int, j as int, g_cur,
                                path@, self.buf.grid());
                        }
                        j = j + 1;
                    }
                    let ghost mid2 = self.buf.grid();
                    self.buf.rotate270();
                    proof {
                        let wi = pre.buf.width as int;
                        let hi = pre.buf.height as int;
                        let nwi = imin(wi, op.width as int);
                        let nhi = imin(hi, op.height as int);
                        assert(nwi == nw as int);
                        assert(nhi == nh as int);
                        assert(carved_w(pre.buf.grid(), wi, hi, wi - nwi, mid));
                        assert(carved_w(rot90_grid(mid, nwi, hi), hi, nwi, hi - nhi, mid2));
                        assert(self.buf.grid() == rot270_grid(mid2, nhi, nwi));
                        assert(seam_tf_ok(pre, op.width, op.height, *self));
                    }
                } else {
                    proof {
                        assert(self.buf.grid() == mid);
                        assert(carved_w(g_start, w as int, h as int, (w - nw) as int, mid));
                        assert(seam_tf_ok(pre, op.width, op.height, *self));
                    }
                }
            },
        }
    }
}

impl Engine for ImageEngine {
    open spec fn apply_req(pre: ImageEngine, specs: Seq<Spec>) -> bool {
        pre.wf()
    }

    open spec fn apply_ok(pre: ImageEngine, specs: Seq<Spec>, post: ImageEngine) -> bool {
        post.wf() && ops_ok(pre, specs, post)
    }

    /// Applies the operations strictly in list order, each mutating
    /// the buffer in place; empty steps are ignored.
    fn apply(&mut self, specs: &Vec<Spec>) {
        let n = specs.len();
        let mut i: usize = 0;
        proof {
            assert(specs@.take(0) =~= Seq::<Spec>::empty());
        }
        while i < n
            invariant
                0 <= i <= n,
                n == specs@.len(),
                self.wf(),
                ops_ok(*old(self), specs@.take(i as int), *self),
            decreases n - i,
        {
            let ghost mid = *self;
            let sp = &specs[i];
            match &sp.data {
                Option::None => {},
                Option::Some(SpecData::Resize(rz)) => {
                    self.transform(rz);
                },
                Option::Some(SpecData::Crop(c)) => {
                    self.transform(c);
                },
                Option::Some(SpecData::Flipv(fv)) => {
                    self.transform(fv);
                },
                Option::Some(SpecData::Fliph(fh)) => {
                    self.transform(fh);
                },
                Option::Some(SpecData::Contrast(c)) => {
                    self.transform(c);
                },
                Option::Some(SpecData::Filter(f)) => {
                    self.transform(f);
                },
                Option::Some(SpecData::Watermark(wm)) => {
                    self.transform(wm);
                },
            }
            proof {
                assert(op_ok(mid, specs@[i as int], *self));
                lemma_ops_snoc(*old(self), specs@.take(i as int), specs@[i as int], mid, *self);
                assert(specs@.take(i as int + 1) =~= specs@.take(i as int).push(
                    specs@[i as int]));
            }
            i = i + 1;
        }
        proof {
            assert(specs@.take(n as int) =~= specs@);
        }
    }
}

/// Whether a buffer of the given dimensions can be encoded in the
/// format: PNG takes any nonempty canvas, JPEG one with both sides in
/// 1..=65535.
pub open spec fn encodable_dims(format: OutputFormat, w: int, h: int) -> bool {
    match format {
        OutputFormat::Png => w >= 1 && h >= 1,
        OutputFormat::Jpeg => 1 <= w <= 65535 && 1 <= h <= 65535,
    }
}

impl ImageEngine {
    /// Consumes the engine and encodes the buffer in the requested
    /// container format. Encoding succeeds exactly when the
    /// dimensions are in the format's range; a failure is an internal
    /// error.
    pub fn generate(self, format: OutputFormat) -> (r: Result<Vec<u8>, ProcessError>)
        requires
            self.wf(),
        ensures
            r matches Ok(v) ==> v@ == (match format {
                OutputFormat::Png => png_encoding_of(buf_bytes(self.buf.grid()), self.buf.width,
                    self.buf.height),
                OutputFormat::Jpeg => jpeg_encoding_of(buf_bytes(self.buf.grid()), self.buf.width,
                    self.buf.height),
            }),
            r is Ok <==> encodable_dims(format, self.buf.width as int, self.buf.height as int),
            r is Err ==> r == Err::<Vec<u8>, ProcessError>(ProcessError::ImageEncode),
    {
        let raw = self.buf.to_raw();
        proof {
            crate::pixel::lemma_buf_bytes_len(self.buf.grid(), self.buf.width as int);
            assert((self.buf.width as int) * (self.buf.grid().len() as int) == (self.buf.width
                as int) * (self.buf.height as int));
        }
        let encoded = match format {
            OutputFormat::Png => encode_png_rgba(&raw, self.buf.width, self.buf.height),
            OutputFormat::Jpeg => encode_jpeg_rgba(&raw, self.buf.width, self.buf.height),
        };
        match encoded {
            Ok(v) => Ok(v),
            Err(()) => Err(ProcessError::ImageEncode),
        }
    }
}

/// Serves one request from already-fetched source bytes: decode the
/// source, apply the operation list in order, encode the result.
pub fn process_image(source: &Vec<u8>, spec_list: &ImageSpec, watermark: PixelBuffer,
    format: OutputFormat) -> (r: Result<Vec<u8>, ProcessError>)
    requires
        watermark.wf(),
    ensures
        r == Err::<Vec<u8>, ProcessError>(ProcessError::ImageDecode) <==> decoded_rgba_of(
            source@) is None,
        r is Ok <==> (decoded_rgba_of(source@) matches Some(t) && encodable_dims(format,
            dims_after(t.0 as int, t.1 as int, spec_list.specs@).0, dims_after(t.0 as int,
            t.1 as int, spec_list.specs@).1)),
        r == Err::<Vec<u8>, ProcessError>(ProcessError::ImageEncode) <==> (decoded_rgba_of(
            source@) matches Some(t) && !encodable_dims(format, dims_after(t.0 as int, t.1 as int,
            spec_list.specs@).0, dims_after(t.0 as int, t.1 as int, spec_list.specs@).1)),
        r matches Ok(v) ==> exists|e0: ImageEngine, e1: ImageEngine|
            {
                &&& decoded_rgba_of(source@) matches Some(t) && e0.buf.width == t.0
                    && e0.buf.height == t.1 && buf_bytes(e0.buf.grid()) == t.2
                &&& e0.mark == watermark
                &&& #[trigger] ops_ok(e0, spec_list.specs@, e1)
                &&& v@ == (match format {
                    OutputFormat::Png => png_encoding_of(buf_bytes(e1.buf.grid()), e1.buf.width,
                        e1.buf.height),
                    OutputFormat::Jpeg => jpeg_encoding_of(buf_bytes(e1.buf.grid()),
                        e1.buf.width, e1.buf.height),
                })
            },
{
    let mut engine = match ImageEngine::from_bytes(source, watermark) {
        Ok(e) => e,
        Err(e) => {
            return Err(e);
        },
    };
    let ghost e0 = engine;
    engine.apply(&spec_list.specs);
    let ghost e1 = engine;
    proof {
        lemma_ops_dims(e0, spec_list.specs@, e1);
    }
    match engine.generate(format) {
        Ok(v) => {
            proof {
                assert(ops_ok(e0, spec_list.specs@, e1));
            }
            Ok(v)
        },
        Err(e) => Err(e),
    }
}

} // verus!
