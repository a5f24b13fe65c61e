//! RGBA pixel grid: the mutable buffer every operation works on.

use vstd::prelude::*;

verus! {

/// One RGBA pixel, eight bits per channel.
#[derive(Clone, Copy, PartialEq, Eq, Structural, Debug)]
pub struct Pixel {
    pub r: u8,
    pub g: u8,
    pub b: u8,
    pub a: u8,
}

/// A rectangular grid of pixels, stored row by row.
///
/// Well-formedness ties the row count to `height` and every row's
/// length to `width`; all operations preserve it.
pub struct PixelBuffer {
    pub width: u32,
    pub height: u32,
    pub data: Vec<Vec<Pixel>>,
}

impl PixelBuffer {
    /// The grid as a sequence of rows of pixels.
    pub open spec fn grid(self) -> Seq<Seq<Pixel>> {
        self.data@.map_values(|row: Vec<Pixel>| row@)
    }

    pub open spec fn wf(self) -> bool {
        &&& self.data@.len() == self.height
        &&& forall|y: int| 0 <= y < self.data@.len() ==> (#[trigger] self.data@[y])@.len() == self.width
    }

    /// The pixel in column `x` of row `y`.
    pub open spec fn pix(self, x: int, y: int) -> Pixel {
        self.grid()[y][x]
    }

    pub fn width(&self) -> (r: u32)
        ensures
            r == self.width,
    {
        self.width
    }

    pub fn height(&self) -> (r: u32)
        ensures
            r == self.height,
    {
        self.height
    }

    /// The pixel at (x, y), or `None` outside the grid.
    pub fn get_pixel(&self, x: u32, y: u32) -> (r: Option<Pixel>)
        requires
            self.wf(),
        ensures
            x < self.width && y < self.height ==> r == Some(self.pix(x as int, y as int)),
            !(x < self.width && y < self.height) ==> r is None,
    {
        if x < self.width && y < self.height {
            Some(self.data[y as usize][x as usize])
        } else {
            None
        }
    }
}

/// The four channel bytes of one pixel, in RGBA order.
pub open spec fn pixel_bytes(p: Pixel) -> Seq<u8> {
    seq![p.r, p.g, p.b, p.a]
}

/// One row of pixels flattened to interleaved RGBA bytes.
pub open spec fn row_bytes(r: Seq<Pixel>) -> Seq<u8>
    decreases r.len(),
{
    if r.len() == 0 {
        seq![]
    } else {
        pixel_bytes(r[0]) + row_bytes(r.drop_first())
    }
}

/// A whole grid flattened to interleaved RGBA bytes, row by row.
pub open spec fn buf_bytes(g: Seq<Seq<Pixel>>) -> Seq<u8>
    decreases g.len(),
{
    if g.len() == 0 {
        seq![]
    } else {
        row_bytes(g[0]) + buf_bytes(g.drop_first())
    }
}

pub proof fn lemma_row_bytes_push(r: Seq<Pixel>, p: Pixel)
    ensures
        row_bytes(r.push(p)) == row_bytes(r) + pixel_bytes(p),
    decreases r.len(),
{
    let s = r.push(p);
    if r.len() == 0 {
        assert(s.drop_first() =~= r);
        assert(row_bytes(s.drop_first()) == row_bytes(r));
        assert(row_bytes(s) =~= row_bytes(r) + pixel_bytes(p));
    } else {
        assert(s.drop_first() =~= r.drop_first().push(p));
        lemma_row_bytes_push(r.drop_first(), p);
        assert(row_bytes(s) =~= row_bytes(r) + pixel_bytes(p));
    }
}

pub proof fn lemma_row_bytes_len(r: Seq<Pixel>)
    ensures
        row_bytes(r).len() == 4 * r.len(),
    decreases r.len(),
{
    if r.len() > 0 {
        lemma_row_bytes_len(r.drop_first());
    }
}

pub proof fn lemma_buf_bytes_push(g: Seq<Seq<Pixel>>, r: Seq<Pixel>)
    ensures
        buf_bytes(g.push(r)) == buf_bytes(g) + row_bytes(r),
    decreases g.len(),
{
    let s = g.push(r);
    if g.len() == 0 {
        assert(s.drop_first() =~= g);
        assert(buf_bytes(s.drop_first()) == buf_bytes(g));
        assert(buf_bytes(s) =~= buf_bytes(g) + row_bytes(r));
    } else {
        assert(s.drop_first() =~= g.drop_first().push(r));
        lemma_buf_bytes_push(g.drop_first(), r);
        assert(buf_bytes(s) =~= buf_bytes(g) + row_bytes(r));
    }
}

pub proof fn lemma_buf_bytes_len(g: Seq<Seq<Pixel>>, w: int)
    requires
        forall|y: int| 0 <= y < g.len() ==> (#[trigger] g[y]).len() == w,
    ensures
        buf_bytes(g).len() == 4 * (w * g.len()),
    decreases g.len(),
{
    if g.len() == 0 {
    } else {
        lemma_row_bytes_len(g[0]);
        lemma_buf_bytes_len(g.drop_first(), w);
        assert(buf_bytes(g).len() == 4 * w + 4 * (w * (g.len() - 1)));
        assert(4 * w + 4 * (w * (g.len() - 1)) == 4 * (w * g.len())) by (nonlinear_arith);
    }
}

/// The smaller of two integers.
pub open spec fn imin(a: int, b: int) -> int {
    if a < b {
        a
    } else {
        b
    }
}

/// A row of pixels read right to left.
pub open spec fn rev_row(r: Seq<Pixel>) -> Seq<Pixel> {
    Seq::new(r.len(), |i: int| r[r.len() - 1 - i])
}

/// Every row mirrored: the grid after a horizontal flip.
pub open spec fn flip_h_grid(g: Seq<Seq<Pixel>>) -> Seq<Seq<Pixel>> {
    Seq::new(g.len(), |y: int| rev_row(g[y]))
}

/// The rows in reverse order: the grid after a vertical flip.
pub open spec fn flip_v_grid(g: Seq<Seq<Pixel>>) -> Seq<Seq<Pixel>> {
    Seq::new(g.len(), |y: int| g[g.len() - 1 - y])
}

/// The rectangle [cx1, cx2) x [cy1, cy2) of a grid.
pub open spec fn crop_grid(g: Seq<Seq<Pixel>>, cx1: int, cy1: int, cx2: int, cy2: int) -> Seq<
    Seq<Pixel>,
> {
    Seq::new((cy2 - cy1) as nat, |y: int| Seq::new((cx2 - cx1) as nat, |x: int|
        g[cy1 + y][cx1 + x]))
}

/// What cropping with corners (x1, y1) and (x2, y2) does: the corners are
/// clamped to the dimensions, and a degenerate rectangle is a no-op.
pub open spec fn crop_ok(pre: PixelBuffer, x1: u32, y1: u32, x2: u32, y2: u32,
    post: PixelBuffer) -> bool {
    let w = pre.width as int;
    let h = pre.height as int;
    let cx1 = imin(x1 as int, w);
    let cy1 = imin(y1 as int, h);
    let cx2 = imin(x2 as int, w);
    let cy2 = imin(y2 as int, h);
    if cx2 <= cx1 || cy2 <= cy1 {
        post.width == pre.width && post.height == pre.height && post.grid() == pre.grid()
    } else {
        &&& post.width == cx2 - cx1
        &&& post.height == cy2 - cy1
        &&& post.grid() == crop_grid(pre.grid(), cx1, cy1, cx2, cy2)
    }
}

/// A grid of `h` rows by `w` columns turned a quarter clockwise.
pub open spec fn rot90_grid(g: Seq<Seq<Pixel>>, w: int, h: int) -> Seq<Seq<Pixel>> {
    Seq::new(w as nat, |y: int| Seq::new(h as nat, |x: int| g[h - 1 - x][y]))
}

/// A grid of `h` rows by `w` columns turned a quarter counter-clockwise.
pub open spec fn rot270_grid(g: Seq<Seq<Pixel>>, w: int, h: int) -> Seq<Seq<Pixel>> {
    Seq::new(w as nat, |y: int| Seq::new(h as nat, |x: int| g[x][w - 1 - y]))
}

/// Mirroring a row twice gives the row back.
pub proof fn lemma_rev_row_involution(r: Seq<Pixel>)
    ensures
        rev_row(rev_row(r)) == r,
{
    assert(rev_row(rev_row(r)) =~= r);
}

/// Flipping horizontally twice restores the original pixel arrangement.
pub proof fn lemma_flip_h_involution(g: Seq<Seq<Pixel>>)
    ensures
        flip_h_grid(flip_h_grid(g)) == g,
{
    assert forall|y: int| 0 <= y < g.len() implies #[trigger] flip_h_grid(flip_h_grid(g))[y]
        == g[y] by {
        lemma_rev_row_involution(g[y]);
    }
    assert(flip_h_grid(flip_h_grid(g)) =~= g);
}

/// Flipping vertically twice restores the original pixel arrangement.
pub proof fn lemma_flip_v_involution(g: Seq<Seq<Pixel>>)
    ensures
        flip_v_grid(flip_v_grid(g)) == g,
{
    assert(flip_v_grid(flip_v_grid(g)) =~= g);
}

/// Cropping with corners beyond the bounds asks for exactly what cropping
/// with the corners clamped to the bounds asks for.
pub proof fn lemma_crop_clamp_idempotent(pre: PixelBuffer, x1: u32, y1: u32, x2: u32, y2: u32,
    post: PixelBuffer)
    ensures
        crop_ok(pre, x1, y1, x2, y2, post) <==> crop_ok(pre, imin(x1 as int, pre.width as int)
            as u32, imin(y1 as int, pre.height as int) as u32, imin(x2 as int, pre.width as int)
            as u32, imin(y2 as int, pre.height as int) as u32, post),
{
}

/// A crop whose clamped rectangle is degenerate leaves the buffer unchanged.
pub proof fn lemma_crop_degenerate(pre: PixelBuffer, x1: u32, y1: u32, x2: u32, y2: u32,
    post: PixelBuffer)
    requires
        crop_ok(pre, x1, y1, x2, y2, post),
        imin(x2 as int, pre.width as int) <= imin(x1 as int, pre.width as int) || imin(y2 as int,
            pre.height as int) <= imin(y1 as int, pre.height as int),
    ensures
        post.width == pre.width,
        post.height == pre.height,
        post.grid() == pre.grid(),
{
}

/// A quarter turn counter-clockwise undoes a quarter turn clockwise.
pub proof fn lemma_rotate_identity(g: Seq<Seq<Pixel>>, w: int, h: int)
    requires
        0 <= w,
        0 <= h,
        g.len() == h,
        forall|y: int| 0 <= y < h ==> (#[trigger] g[y]).len() == w,
    ensures
        rot270_grid(rot90_grid(g, w, h), h, w) == g,
{
    let g1 = rot90_grid(g, w, h);
    let g2 = rot270_grid(g1, h, w);
    assert forall|y: int| 0 <= y < g2.len() implies #[trigger] g2[y] == g[y] by {
        assert forall|x: int| 0 <= x < w implies #[trigger] g2[y][x] == g[y][x] by {
            assert(g1[x][h - 1 - y] == g[y][x]);
        }
        assert(g2[y] =~= g[y]);
    }
    assert(g2 =~= g);
}

proof fn lemma_cell_in_range(w: int, h: int, x: int, y: int)
    requires
        0 <= x < w,
        0 <= y < h,
    ensures
        0 <= y * w + x,
        y * w + x < w * h,
{
    assert(0 <= y * w + x && y * w + x < w * h) by (nonlinear_arith)
        requires
            0 <= x < w,
            0 <= y < h,
    ;
}

impl PixelBuffer {
    /// Builds a buffer from interleaved RGBA bytes; `None` exactly when
    /// the byte count does not match the dimensions.
    pub fn from_raw(width: u32, height: u32, raw: Vec<u8>) -> (r: Option<PixelBuffer>)
        ensures
            raw@.len() == 4 * ((width as int) * (height as int)) ==> (r matches Some(b)
                && b.wf()
                && b.width == width
                && b.height == height
                && buf_bytes(b.grid()) == raw@),
            raw@.len() != 4 * ((width as int) * (height as int)) ==> r is None,
    {
        let ghost wi = width as int;
        let ghost hi = height as int;
        proof {
            assert((width as u128) * (height as u128) < 0x10000000000000000) by (nonlinear_arith)
                requires
                    width <= u32::MAX,
                    height <= u32::MAX,
            ;
        }
        let cells: u128 = (width as u128) * (height as u128);
        if (raw.len() as u128) != 4 * cells {
            proof {
                assert(raw@.len() != 4 * (wi * hi));
            }
            return None;
        }
        let w = width as usize;
        let h = height as usize;
        let mut data: Vec<Vec<Pixel>> = Vec::new();
        let mut idx: usize = 0;
        let mut y: usize = 0;
        proof {
            assert(0 * wi == 0) by (nonlinear_arith);
        }
        while y < h
            invariant
                0 <= y <= h,
                w == width as int,
                h == height as int,
                raw@.len() == 4 * (wi * hi),
                wi == width as int,
                hi == height as int,
                data@.len() == y,
                forall|j: int| 0 <= j < y ==> (#[trigger] data@[j])@.len() == wi,
                idx == 4 * ((y as int) * wi),
                buf_bytes(data@.map_values(|row: Vec<Pixel>| row@)) == raw@.take(idx as int),
            decreases h - y,
        {
            let mut row: Vec<Pixel> = Vec::new();
            let mut x: usize = 0;
            while x < w
                invariant
                    0 <= x <= w,
                    0 <= y < h,
                    w == width as int,
                    h == height as int,
                    raw@.len() == 4 * (wi * hi),
                    wi == width as int,
                    hi == height as int,
                    data@.len() == y,
                    forall|j: int| 0 <= j < y ==> (#[trigger] data@[j])@.len() == wi,
                    row@.len() == x,
                    idx == 4 * ((y as int) * wi) + 4 * (x as int),
                    buf_bytes(data@.map_values(|r2: Vec<Pixel>| r2@)) + row_bytes(row@) == raw@.take(
                        idx as int),
                decreases w - x,
            {
                proof {
                    lemma_cell_in_range(wi, hi, x as int, y as int);
                }
                let rlen = raw.len();
                proof {
                    assert(idx + 4 <= rlen);
                }
                let p = Pixel { r: raw[idx], g: raw[idx + 1], b: raw[idx + 2], a: raw[idx + 3] };
                proof {
                    lemma_row_bytes_push(row@, p);
                    assert(raw@.take(idx as int + 4) =~= raw@.take(idx as int) + pixel_bytes(p));
                }
                row.push(p);
                idx = idx + 4;
                x = x + 1;
            }
            proof {
                let g = data@.map_values(|r2: Vec<Pixel>| r2@);
                lemma_buf_bytes_push(g, row@);
                assert(data@.push(row).map_values(|r2: Vec<Pixel>| r2@) =~= g.push(row@));
                assert(((y as int) + 1) * wi == (y as int) * wi + wi) by (nonlinear_arith);
            }
            data.push(row);
            y = y + 1;
        }
        let b = PixelBuffer { width, height, data };
        proof {
            assert((h as int) * wi == wi * hi) by (nonlinear_arith)
                requires
                    h == hi,
            ;
            assert(raw@.take(idx as int) =~= raw@);
        }
        Some(b)
    }

    /// Mirrors the buffer along the vertical axis: each row is reversed.
    pub fn flip_h(&mut self)
        requires
            old(self).wf(),
        ensures
            final(self).wf(),
            final(self).width == old(self).width,
            final(self).height == old(self).height,
            final(self).grid() == flip_h_grid(old(self).grid()),
    {
        let h = self.data.len();
        let mut data: Vec<Vec<Pixel>> = Vec::new();
        let mut y: usize = 0;
        while y < h
            invariant
                0 <= y <= h,
                old(self) == self,
                self.wf(),
                h == self.data@.len(),
                data@.len() == y,
                forall|j: int| 0 <= j < y ==> (#[trigger] data@[j])@ == rev_row(self.grid()[j]),
            decreases h - y,
        {
            let row = &self.data[y];
            let w = row.len();
            let mut out: Vec<Pixel> = Vec::new();
            let mut x: usize = 0;
            while x < w
                invariant
                    0 <= x <= w,
                    0 <= y < h,
                    self.wf(),
                    h == self.data@.len(),
                    w == row@.len(),
                    row == &self.data[y as int],
                    out@.len() == x,
                    forall|i: int| 0 <= i < x ==> out@[i] == row@[w - 1 - i],
                decreases w - x,
            {
                out.push(row[w - 1 - x]);
                x = x + 1;
            }
            proof {
                assert(out@ =~= rev_row(self.grid()[y as int]));
            }
            data.push(out);
            y = y + 1;
        }
        self.data = data;
        proof {
            assert(self.grid() =~= flip_h_grid(old(self).grid()));
        }
    }

    /// Mirrors the buffer along the horizontal axis: the rows are reversed.
    pub fn flip_v(&mut self)
        requires
            old(self).wf(),
        ensures
            final(self).wf(),
            final(self).width == old(self).width,
            final(self).height == old(self).height,
            final(self).grid() == flip_v_grid(old(self).grid()),
    {
        let h = self.data.len();
        let mut data: Vec<Vec<Pixel>> = Vec::new();
        let mut y: usize = 0;
        while y < h
            invariant
                0 <= y <= h,
                old(self) == self,
                self.wf(),
                h == self.data@.len(),
                data@.len() == y,
                forall|j: int| 0 <= j < y ==> (#[trigger] data@[j])@ == self.grid()[h - 1 - j],
            decreases h - y,
        {
            let row = self.data[h - 1 - y].clone();
            proof {
                assert(row@ == self.grid()[h - 1 - y as int]);
            }
            data.push(row);
            y = y + 1;
        }
        self.data = data;
        proof {
            assert(self.grid() =~= flip_v_grid(old(self).grid()));
        }
    }

    /// Keeps the rectangle [x1, x2) x [y1, y2) after clamping the corners
    /// to the current dimensions; a degenerate rectangle leaves the buffer
    /// untouched.
    pub fn crop(&mut self, x1: u32, y1: u32, x2: u32, y2: u32)
        requires
            old(self).wf(),
        ensures
            final(self).wf(),
            crop_ok(*old(self), x1, y1, x2, y2, *final(self)),
    {
        let w = self.width;
        let h = self.height;
        let cx1 = if x1 < w { x1 } else { w };
        let cy1 = if y1 < h { y1 } else { h };
        let cx2 = if x2 < w { x2 } else { w };
        let cy2 = if y2 < h { y2 } else { h };
        if cx2 <= cx1 || cy2 <= cy1 {
            return ;
        }
        let nw = (cx2 - cx1) as usize;
        let nh = (cy2 - cy1) as usize;
        let mut data: Vec<Vec<Pixel>> = Vec::new();
        let mut y: usize = 0;
        while y < nh
            invariant
                0 <= y <= nh,
                old(self) == self,
                self.wf(),
                cx1 < cx2 <= self.width,
                cy1 < cy2 <= self.height,
                nw == cx2 - cx1,
                nh == cy2 - cy1,
                data@.len() == y,
                forall|j: int| #![trigger data@[j]]
                    0 <= j < y ==> data@[j]@ == Seq::new(nw as nat, |x: int|
                        self.grid()[cy1 + j][cx1 + x]),
            decreases nh - y,
        {
            let row = &self.data[(cy1 as usize) + y];
            let mut out: Vec<Pixel> = Vec::new();
            let mut x: usize = 0;
            while x < nw
                invariant
                    0 <= x <= nw,
                    0 <= y < nh,
                    self.wf(),
                    cx1 < cx2 <= self.width,
                    cy1 < cy2 <= self.height,
                    nw == cx2 - cx1,
                    nh == cy2 - cy1,
                    row == &self.data[cy1 + y as int],
                    out@.len() == x,
                    forall|i: int| 0 <= i < x ==> out@[i] == row@[cx1 + i],
                decreases nw - x,
            {
                out.push(row[(cx1 as usize) + x]);
                x = x + 1;
            }
            proof {
                assert(out@ =~= Seq::new(nw as nat, |x: int| self.grid()[cy1 + y as int][cx1 + x]));
            }
            data.push(out);
            y = y + 1;
        }
        self.width = cx2 - cx1;
        self.height = cy2 - cy1;
        self.data = data;
        proof {
            assert(self.grid() =~= crop_grid(old(self).grid(), cx1 as int, cy1 as int, cx2 as int,
                cy2 as int));
        }
    }

    /// Quarter turn clockwise: the result is `height` wide and `width` tall.
    pub fn rotate90(&mut self)
        requires
            old(self).wf(),
        ensures
            final(self).wf(),
            final(self).width == old(self).height,
            final(self).height == old(self).width,
            final(self).grid() == rot90_grid(old(self).grid(), old(self).width as int,
                old(self).height as int),
    {
        let w = self.width as usize;
        let h = self.height as usize;
        let mut data: Vec<Vec<Pixel>> = Vec::new();
        let mut y: usize = 0;
        while y < w
            invariant
                0 <= y <= w,
                old(self) == self,
                self.wf(),
                w == self.width as int,
                h == self.height as int,
                data@.len() == y,
                forall|j: int| #![trigger data@[j]]
                    0 <= j < y ==> data@[j]@ == Seq::new(h as nat, |x: int|
                        self.grid()[h - 1 - x][j]),
            decreases w - y,
        {
            let mut out: Vec<Pixel> = Vec::new();
            let mut x: usize = 0;
            while x < h
                invariant
                    0 <= x <= h,
                    0 <= y < w,
                    self.wf(),
                    w == self.width as int,
                    h == self.height as int,
                    out@.len() == x,
                    forall|i: int| 0 <= i < x ==> out@[i] == self.grid()[h - 1 - i][y as int],
                decreases h - x,
            {
                out.push(self.data[h - 1 - x][y]);
                x = x + 1;
            }
            proof {
                assert(out@ =~= Seq::new(h as nat, |x: int| self.grid()[h - 1 - x][y as int]));
            }
            data.push(out);
            y = y + 1;
        }
        self.width = self.height;
        self.height = (w as u32);
        self.data = data;
        proof {
            assert(self.grid() =~= rot90_grid(old(self).grid(), w as int, h as int));
        }
    }

    /// Quarter turn counter-clockwise, the inverse of `rotate90`.
    pub fn rotate270(&mut self)
        requires
            old(self).wf(),
        ensures
            final(self).wf(),
            final(self).width == old(self).height,
            final(self).height == old(self).width,
            final(self).grid() == rot270_grid(old(self).grid(), old(self).width as int,
                old(self).height as int),
    {
        let w = self.width as usize;
        let h = self.height as usize;
        let mut data: Vec<Vec<Pixel>> = Vec::new();
        let mut y: usize = 0;
        while y < w
            invariant
                0 <= y <= w,
                old(self) == self,
                self.wf(),
                w == self.width as int,
                h == self.height as int,
                data@.len() == y,
                forall|j: int| #![trigger data@[j]]
                    0 <= j < y ==> data@[j]@ == Seq::new(h as nat, |x: int|
                        self.grid()[x][w - 1 - j]),
            decreases w - y,
        {
            let mut out: Vec<Pixel> = Vec::new();
            let mut x: usize = 0;
            while x < h
                invariant
                    0 <= x <= h,
                    0 <= y < w,
                    self.wf(),
                    w == self.width as int,
                    h == self.height as int,
                    out@.len() == x,
                    forall|i: int| 0 <= i < x ==> out@[i] == self.grid()[i][w - 1 - y as int],
                decreases h - x,
            {
                out.push(self.data[x][w - 1 - y]);
                x = x + 1;
            }
            proof {
                assert(out@ =~= Seq::new(h as nat, |x: int| self.grid()[x][w - 1 - y as int]));
            }
            data.push(out);
            y = y + 1;
        }
        self.width = self.height;
        self.height = (w as u32);
        self.data = data;
        proof {
            assert(self.grid() =~= rot270_grid(old(self).grid(), w as int, h as int));
        }
    }

    /// Flattens the grid back to interleaved RGBA bytes.
    pub fn to_raw(&self) -> (r: Vec<u8>)
        requires
            self.wf(),
        ensures
            r@ == buf_bytes(self.grid()),
    {
        let mut out: Vec<u8> = Vec::new();
        let mut y: usize = 0;
        let h = self.data.len();
        while y < h
            invariant
                0 <= y <= h,
                self.wf(),
                h == self.data@.len(),
                out@ == buf_bytes(self.grid().take(y as int)),
            decreases h - y,
        {
            let row = &self.data[y];
            let w = row.len();
            let mut x: usize = 0;
            while x < w
                invariant
                    0 <= x <= w,
                    0 <= y < h,
                    self.wf(),
                    h == self.data@.len(),
                    w == row@.len(),
                    row == &self.data[y as int],
                    out@ == buf_bytes(self.grid().take(y as int)) + row_bytes(row@.take(x as int)),
                decreases w - x,
            {
                let p = row[x];
                proof {
                    lemma_row_bytes_push(row@.take(x as int), p);
                    assert(row@.take(x as int + 1) =~= row@.take(x as int).push(p));
                }
                out.push(p.r);
                out.push(p.g);
                out.push(p.b);
                out.push(p.a);
                x = x + 1;
            }
            proof {
                lemma_buf_bytes_push(self.grid().take(y as int), row@);
                assert(self.grid().take(y as int + 1) =~= self.grid().take(y as int).push(row@));
                assert(row@.take(w as int) =~= row@);
            }
            y = y + 1;
        }
        proof {
            assert(self.grid().take(h as int) =~= self.grid());
        }
        out
    }
}

} // verus!
