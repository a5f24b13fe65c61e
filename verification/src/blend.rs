//! Per-pixel color work: linear tint blending, contrast adjustment and
//! source-over compositing of the watermark.

use vstd::prelude::*;

use crate::pixel::imin;
use crate::pixel::Pixel;
use crate::pixel::PixelBuffer;

verus! {

/// An opaque RGB tint color.
#[derive(Clone, Copy, PartialEq, Eq, Structural, Debug)]
pub struct Tint {
    pub r: u8,
    pub g: u8,
    pub b: u8,
}

/// One channel of the linear blend `tint * opacity + old * (1 - opacity)`,
/// with the opacity given in hundredths and the result rounded to the
/// nearest integer.
pub open spec fn blend_channel(tint: u8, old_c: u8, op: int) -> int {
    ((tint as int) * op + (old_c as int) * (100 - op) + 50) / 100
}

pub proof fn lemma_blend_channel_bounds(tint: u8, old_c: u8, op: int)
    requires
        0 <= op <= 100,
    ensures
        0 <= blend_channel(tint, old_c, op) <= 255,
{
    assert((tint as int) * op + (old_c as int) * (100 - op) <= 25500) by (nonlinear_arith)
        requires
            0 <= op <= 100,
            0 <= tint as int <= 255,
            0 <= old_c as int <= 255,
    ;
    assert((tint as int) * op + (old_c as int) * (100 - op) >= 0) by (nonlinear_arith)
        requires
            0 <= op <= 100,
            0 <= tint as int,
            0 <= old_c as int,
    ;
}

/// The blend applied to the three color channels; alpha is untouched.
pub open spec fn blend_pixel(p: Pixel, tint: Tint, op: int) -> Pixel {
    Pixel {
        r: blend_channel(tint.r, p.r, op) as u8,
        g: blend_channel(tint.g, p.g, op) as u8,
        b: blend_channel(tint.b, p.b, op) as u8,
        a: p.a,
    }
}

/// The blend applied to every pixel of a grid.
pub open spec fn blend_grid(g: Seq<Seq<Pixel>>, tint: Tint, op: int) -> Seq<Seq<Pixel>> {
    Seq::new(g.len(), |y: int| Seq::new(g[y].len(), |x: int| blend_pixel(g[y][x], tint, op)))
}

fn blend_channel_exec(tint: u8, old_c: u8, op: u8) -> (r: u8)
    requires
        op <= 100,
    ensures
        r as int == blend_channel(tint, old_c, op as int),
{
    proof {
        lemma_blend_channel_bounds(tint, old_c, op as int);
        assert((tint as int) * (op as int) + (old_c as int) * (100 - op as int) <= 25500)
            by (nonlinear_arith)
            requires
                0 <= op as int <= 100,
                0 <= tint as int <= 255,
                0 <= old_c as int <= 255,
        ;
    }
    let v: u32 = (tint as u32) * (op as u32) + (old_c as u32) * (100 - op as u32) + 50;
    (v / 100) as u8
}

/// Blends the whole image with a fixed tint color.
///
/// The opacity is given in hundredths and is clamped to [0, 100] before
/// use; the alpha channel is never modified.
pub fn mix_with_color(img: &mut PixelBuffer, mix_color: Tint, opacity: u8)
    requires
        old(img).wf(),
    ensures
        final(img).wf(),
        final(img).width == old(img).width,
        final(img).height == old(img).height,
        final(img).grid() == blend_grid(old(img).grid(), mix_color, imin(opacity as int, 100)),
    {
    let op = if opacity > 100 {
        100
    } else {
        opacity
    };
    let h = img.data.len();
    let mut data: Vec<Vec<Pixel>> = Vec::new();
    let mut y: usize = 0;
    while y < h
        invariant
            0 <= y <= h,
            old(img) == img,
            img.wf(),
            op as int == imin(opacity as int, 100),
            op <= 100,
            h == img.data@.len(),
            data@.len() == y,
            forall|j: int| #![trigger data@[j]]
                0 <= j < y ==> data@[j]@ == Seq::new(img.grid()[j].len(), |x: int|
                    blend_pixel(img.grid()[j][x], mix_color, op as int)),
        decreases h - y,
    {
        let row = &img.data[y];
        let w = row.len();
        let mut out: Vec<Pixel> = Vec::new();
        let mut x: usize = 0;
        while x < w
            invariant
                0 <= x <= w,
                0 <= y < h,
                img.wf(),
                op <= 100,
                h == img.data@.len(),
                w == row@.len(),
                row == &img.data[y as int],
                out@.len() == x,
                forall|i: int| 0 <= i < x ==> out@[i] == blend_pixel(row@[i], mix_color,
                    op as int),
            decreases w - x,
        {
            let p = row[x];
            let q = Pixel {
                r: blend_channel_exec(mix_color.r, p.r, op),
                g: blend_channel_exec(mix_color.g, p.g, op),
                b: blend_channel_exec(mix_color.b, p.b, op),
                a: p.a,
            };
            out.push(q);
            x = x + 1;
        }
        proof {
            assert(out@ =~= Seq::new(img.grid()[y as int].len(), |x: int|
                blend_pixel(img.grid()[y as int][x], mix_color, op as int)));
        }
        data.push(out);
        y = y + 1;
    }
    img.data = data;
    proof {
        assert(img.grid() =~= blend_grid(old(img).grid(), mix_color, op as int));
    }
}

/// The contrast level actually used: the given level with the extremes
/// cut off so that the scale factor stays in [0, 101].
pub open spec fn contrast_level_eff(level: i32) -> int {
    if level < -100 {
        -100
    } else if level > 10000 {
        10000
    } else {
        level as int
    }
}

/// One channel after the contrast adjustment: the distance from the
/// neutral value 128 is scaled by `(100 + level) / 100` and clamped to
/// the channel range. Level 0 is the identity; larger levels push
/// channels away from 128, negative ones pull them towards it.
pub open spec fn contrast_channel(c: u8, level: i32) -> int {
    let f = 100 + contrast_level_eff(level);
    if c >= 128 {
        128 + imin(((c as int) - 128) * f / 100, 127)
    } else {
        128 - imin((128 - (c as int)) * f / 100, 128)
    }
}

/// The contrast adjustment on the color channels; alpha is untouched.
pub open spec fn contrast_pixel(p: Pixel, level: i32) -> Pixel {
    Pixel {
        r: contrast_channel(p.r, level) as u8,
        g: contrast_channel(p.g, level) as u8,
        b: contrast_channel(p.b, level) as u8,
        a: p.a,
    }
}

pub open spec fn contrast_grid(g: Seq<Seq<Pixel>>, level: i32) -> Seq<Seq<Pixel>> {
    Seq::new(g.len(), |y: int| Seq::new(g[y].len(), |x: int| contrast_pixel(g[y][x], level)))
}

/// The product of two nonnegative integers is nonnegative.
proof fn lemma_mul_nonneg(a: int, b: int)
    requires
        0 <= a,
        0 <= b,
    ensures
        0 <= a * b,
{
    assert(0 <= a * b) by (nonlinear_arith)
        requires
            0 <= a,
            0 <= b,
    ;
}

/// A product grows with its factors.
proof fn lemma_mul_upper(a: int, b: int, ca: int, cb: int)
    requires
        0 <= a <= ca,
        0 <= b <= cb,
    ensures
        a * b <= ca * cb,
{
    assert(a * b <= ca * cb) by (nonlinear_arith)
        requires
            0 <= a <= ca,
            0 <= b <= cb,
    ;
}

pub proof fn lemma_contrast_channel_bounds(c: u8, level: i32)
    ensures
        0 <= contrast_channel(c, level) <= 255,
{
    if c >= 128 {
        lemma_mul_nonneg((c as int) - 128, 100 + contrast_level_eff(level));
    } else {
        lemma_mul_nonneg(128 - (c as int), 100 + contrast_level_eff(level));
    }
}

fn contrast_channel_exec(c: u8, level: i32) -> (r: u8)
    ensures
        r as int == contrast_channel(c, level),
{
    let eff: i32 = if level < -100 {
        -100
    } else if level > 10000 {
        10000
    } else {
        level
    };
    let f: u32 = (100 + eff) as u32;
    if c >= 128 {
        let d: u32 = (c - 128) as u32;
        proof {
            lemma_mul_upper(d as int, f as int, 127, 10100);
        }
        let v: u32 = d * f / 100;
        let capped = if v > 127 {
            127u32
        } else {
            v
        };
        (128 + capped) as u8
    } else {
        let d: u32 = (128 - c) as u32;
        proof {
            lemma_mul_upper(d as int, f as int, 128, 10100);
        }
        let v: u32 = d * f / 100;
        let capped = if v > 128 {
            128u32
        } else {
            v
        };
        (128 - capped) as u8
    }
}

/// Adjusts the contrast of every pixel at the given level (hundredths of
/// the neutral scale; level 0 changes nothing).
pub fn adjust_contrast(img: &mut PixelBuffer, level: i32)
    requires
        old(img).wf(),
    ensures
        final(img).wf(),
        final(img).width == old(img).width,
        final(img).height == old(img).height,
        final(img).grid() == contrast_grid(old(img).grid(), level),
{
    let h = img.data.len();
    let mut data: Vec<Vec<Pixel>> = Vec::new();
    let mut y: usize = 0;
    while y < h
        invariant
            0 <= y <= h,
            old(img) == img,
            img.wf(),
            h == img.data@.len(),
            data@.len() == y,
            forall|j: int| #![trigger data@[j]]
                0 <= j < y ==> data@[j]@ == Seq::new(img.grid()[j].len(), |x: int|
                    contrast_pixel(img.grid()[j][x], level)),
        decreases h - y,
    {
        let row = &img.data[y];
        let w = row.len();
        let mut out: Vec<Pixel> = Vec::new();
        let mut x: usize = 0;
        while x < w
            invariant
                0 <= x <= w,
                0 <= y < h,
                img.wf(),
                h == img.data@.len(),
                w == row@.len(),
                row == &img.data[y as int],
                out@.len() == x,
                forall|i: int| 0 <= i < x ==> out@[i] == contrast_pixel(row@[i], level),
            decreases w - x,
        {
            let p = row[x];
            let q = Pixel {
                r: contrast_channel_exec(p.r, level),
                g: contrast_channel_exec(p.g, level),
                b: contrast_channel_exec(p.b, level),
                a: p.a,
            };
            out.push(q);
            x = x + 1;
        }
        proof {
            assert(out@ =~= Seq::new(img.grid()[y as int].len(), |x: int|
                contrast_pixel(img.grid()[y as int][x], level)));
        }
        data.push(out);
        y = y + 1;
    }
    img.data = data;
    proof {
        assert(img.grid() =~= contrast_grid(old(img).grid(), level));
    }
}

/// Scaling a nonnegative distance by the neutral factor is exact.
proof fn lemma_div100_exact(d: int)
    requires
        0 <= d,
    ensures
        d * 100 / 100 == d,
{
    assert(d * 100 / 100 == d) by (nonlinear_arith)
        requires
            0 <= d,
    ;
}

/// Scaling by the neutral factor returns the channel unchanged.
proof fn lemma_hundredths_identity(c: u8)
    ensures
        contrast_channel(c, 0) == c as int,
{
    if c >= 128 {
        lemma_div100_exact((c as int) - 128);
    } else {
        lemma_div100_exact(128 - (c as int));
    }
}

/// At level zero the contrast adjustment changes nothing.
pub proof fn lemma_contrast_identity(g: Seq<Seq<Pixel>>)
    ensures
        contrast_grid(g, 0) == g,
{
    assert forall|y: int| 0 <= y < g.len() implies #[trigger] contrast_grid(g, 0)[y] == g[y] by {
        assert forall|x: int| 0 <= x < g[y].len() implies #[trigger] contrast_grid(g, 0)[y][x]
            == g[y][x] by {
            let p = g[y][x];
            lemma_hundredths_identity(p.r);
            lemma_hundredths_identity(p.g);
            lemma_hundredths_identity(p.b);
        }
        assert(contrast_grid(g, 0)[y] =~= g[y]);
    }
    assert(contrast_grid(g, 0) =~= g);
}

/// The alpha of a source pixel composited over a destination pixel:
/// `sa + da * (1 - sa)` in the 0..255 scale, rounded.
pub open spec fn over_alpha(sa: u8, da: u8) -> int {
    sa + ((da as int) * (255 - sa as int) + 127) / 255
}

pub proof fn lemma_over_alpha_bounds(sa: u8, da: u8)
    ensures
        0 <= over_alpha(sa, da) <= 255,
        over_alpha(sa, da) == 0 ==> sa == 0 && da == 0,
{
    lemma_mul_nonneg(da as int, 255 - sa as int);
    lemma_mul_upper(da as int, 255 - sa as int, 255, 255 - sa as int);
    assert((255 * (255 - sa as int) + 127) / 255 == 255 - sa as int);
    if sa == 0 && da > 0 {
        assert((da as int) * (255 - 0) == 255 * (da as int)) by (nonlinear_arith);
        assert((255 * (da as int) + 127) / 255 >= da as int);
    }
}

/// One color channel of straight-alpha source-over compositing, with the
/// result rounded and clamped to the channel range.
pub open spec fn over_color(sc: u8, dc: u8, sa: int, da: int, ao: int) -> int {
    imin(((sc as int) * sa * 255 + (dc as int) * da * (255 - sa) + (255 * ao) / 2) / (255 * ao),
        255)
}

/// Standard source-over compositing of one pixel onto another.
pub open spec fn over_pixel(src: Pixel, dst: Pixel) -> Pixel {
    let sa = src.a as int;
    let da = dst.a as int;
    let ao = over_alpha(src.a, dst.a);
    if ao == 0 {
        Pixel { r: 0, g: 0, b: 0, a: 0 }
    } else {
        Pixel {
            r: over_color(src.r, dst.r, sa, da, ao) as u8,
            g: over_color(src.g, dst.g, sa, da, ao) as u8,
            b: over_color(src.b, dst.b, sa, da, ao) as u8,
            a: ao as u8,
        }
    }
}

proof fn lemma_over_products(sc: u8, dc: u8, sa: int, da: int)
    requires
        0 <= sa <= 255,
        0 <= da <= 255,
    ensures
        0 <= (sc as int) * sa * 255 <= 16581375,
        0 <= (dc as int) * da * (255 - sa) <= 16581375,
{
    assert(0 <= (sc as int) * sa * 255 <= 16581375) by (nonlinear_arith)
        requires
            0 <= sc as int <= 255,
            0 <= sa <= 255,
    ;
    assert(0 <= (dc as int) * da * (255 - sa) <= 16581375) by (nonlinear_arith)
        requires
            0 <= dc as int <= 255,
            0 <= da <= 255,
            0 <= 255 - sa <= 255,
    ;
}

fn over_color_exec(sc: u8, dc: u8, sa: u8, da: u8, ao: u32) -> (r: u8)
    requires
        0 < ao <= 255,
    ensures
        r as int == over_color(sc, dc, sa as int, da as int, ao as int),
{
    proof {
        lemma_over_products(sc, dc, sa as int, da as int);
        lemma_mul_upper(sc as int, sa as int, 255, 255);
        lemma_mul_upper(dc as int, da as int, 255, 255);
    }
    let num: u64 = (sc as u64) * (sa as u64) * 255 + (dc as u64) * (da as u64) * (255 - sa as u64)
        + (255 * (ao as u64)) / 2;
    let den: u64 = 255 * (ao as u64);
    let v: u64 = num / den;
    if v > 255 {
        255u8
    } else {
        v as u8
    }
}

fn over_pixel_exec(src: Pixel, dst: Pixel) -> (r: Pixel)
    ensures
        r == over_pixel(src, dst),
{
    proof {
        lemma_over_alpha_bounds(src.a, dst.a);
        lemma_mul_upper(dst.a as int, 255 - src.a as int, 255, 255);
    }
    let d: u32 = (dst.a as u32) * (255 - src.a as u32);
    let ao: u32 = (src.a as u32) + (d + 127) / 255;
    if ao == 0 {
        Pixel { r: 0, g: 0, b: 0, a: 0 }
    } else {
        Pixel {
            r: over_color_exec(src.r, dst.r, src.a, dst.a, ao),
            g: over_color_exec(src.g, dst.g, src.a, dst.a, ao),
            b: over_color_exec(src.b, dst.b, src.a, dst.a, ao),
            a: ao as u8,
        }
    }
}

/// The grid after compositing `m` over it with its top-left corner at
/// (x, y); pixels of `m` outside the grid are clipped.
pub open spec fn overlay_grid(g: Seq<Seq<Pixel>>, m: Seq<Seq<Pixel>>, x: int, y: int) -> Seq<
    Seq<Pixel>,
> {
    Seq::new(g.len(), |yy: int| Seq::new(g[yy].len(), |xx: int|
        if yy >= y && yy - y < m.len() && xx >= x && xx - x < m[yy - y].len() {
            over_pixel(m[yy - y][xx - x], g[yy][xx])
        } else {
            g[yy][xx]
        }))
}

/// Composites `mark` onto the image with standard source-over blending,
/// its top-left corner at (x, y); parts outside the image are clipped.
pub fn overlay(img: &mut PixelBuffer, mark: &PixelBuffer, x: u32, y: u32)
    requires
        old(img).wf(),
        mark.wf(),
    ensures
        final(img).wf(),
        final(img).width == old(img).width,
        final(img).height == old(img).height,
        final(img).grid() == overlay_grid(old(img).grid(), mark.grid(), x as int, y as int),
{
    let h = img.data.len();
    let xs = x as usize;
    let ys = y as usize;
    let mut data: Vec<Vec<Pixel>> = Vec::new();
    let mut yy: usize = 0;
    while yy < h
        invariant
            0 <= yy <= h,
            old(img) == img,
            img.wf(),
            mark.wf(),
            xs == x as int,
            ys == y as int,
            h == img.data@.len(),
            data@.len() == yy,
            forall|j: int| #![trigger data@[j]]
                0 <= j < yy ==> data@[j]@ == Seq::new(img.grid()[j].len(), |xx: int|
                    if j >= y as int && j - y < mark.grid().len() && xx >= x as int && xx - x
                        < mark.grid()[j - y].len() {
                        over_pixel(mark.grid()[j - y][xx - x], img.grid()[j][xx])
                    } else {
                        img.grid()[j][xx]
                    }),
        decreases h - yy,
    {
        let row = &img.data[yy];
        let w = row.len();
        let mut out: Vec<Pixel> = Vec::new();
        let mut xx: usize = 0;
        while xx < w
            invariant
                0 <= xx <= w,
                0 <= yy < h,
                img.wf(),
                mark.wf(),
                xs == x as int,
                ys == y as int,
                h == img.data@.len(),
                w == row@.len(),
                row == &img.data[yy as int],
                out@.len() == xx,
                forall|i: int| 0 <= i < xx ==> out@[i] == (if yy as int >= y as int && yy - y
                    < mark.grid().len() && i >= x as int && i - x < mark.grid()[yy - y].len() {
                    over_pixel(mark.grid()[yy - y][i - x], row@[i])
                } else {
                    row@[i]
                }),
            decreases w - xx,
        {
            let p = row[xx];
            let q = if yy >= ys && yy - ys < mark.data.len() && xx >= xs && xx - xs
                < mark.data[yy - ys].len() {
                over_pixel_exec(mark.data[yy - ys][xx - xs], p)
            } else {
                p
            };
            out.push(q);
            xx = xx + 1;
        }
        proof {
            assert(out@ =~= Seq::new(img.grid()[yy as int].len(), |i: int|
                if yy as int >= y as int && yy - y < mark.grid().len() && i >= x as int && i - x
                    < mark.grid()[yy as int - y].len() {
                    over_pixel(mark.grid()[yy as int - y][i - x], img.grid()[yy as int][i])
                } else {
                    img.grid()[yy as int][i]
                }));
        }
        data.push(out);
        yy = yy + 1;
    }
    img.data = data;
    proof {
        assert(img.grid() =~= overlay_grid(old(img).grid(), mark.grid(), x as int, y as int));
    }
}

/// At opacity zero the blend changes nothing.
pub proof fn lemma_blend_identity_at_zero(g: Seq<Seq<Pixel>>, tint: Tint)
    ensures
        blend_grid(g, tint, 0) == g,
{
    assert forall|y: int| 0 <= y < g.len() implies #[trigger] blend_grid(g, tint, 0)[y]
        == g[y] by {
        assert forall|x: int| 0 <= x < g[y].len() implies #[trigger] blend_grid(g, tint, 0)[y][x]
            == g[y][x] by {
            let p = g[y][x];
            assert(((p.r as int) * 100 + 50) / 100 == p.r as int);
            assert(((p.g as int) * 100 + 50) / 100 == p.g as int);
            assert(((p.b as int) * 100 + 50) / 100 == p.b as int);
        }
        assert(blend_grid(g, tint, 0)[y] =~= g[y]);
    }
    assert(blend_grid(g, tint, 0) =~= g);
}

/// At full opacity every color channel equals the tint channel exactly,
/// and alpha is preserved.
pub proof fn lemma_blend_full_opacity(g: Seq<Seq<Pixel>>, tint: Tint, y: int, x: int)
    requires
        0 <= y < g.len(),
        0 <= x < g[y].len(),
    ensures
        blend_grid(g, tint, 100)[y][x].r == tint.r,
        blend_grid(g, tint, 100)[y][x].g == tint.g,
        blend_grid(g, tint, 100)[y][x].b == tint.b,
        blend_grid(g, tint, 100)[y][x].a == g[y][x].a,
{
    assert(((tint.r as int) * 100 + 50) / 100 == tint.r as int);
    assert(((tint.g as int) * 100 + 50) / 100 == tint.g as int);
    assert(((tint.b as int) * 100 + 50) / 100 == tint.b as int);
}

} // verus!
