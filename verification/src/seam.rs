//! Content-aware shrinking: finding the vertical seam of least total
//! energy by dynamic programming, and removing it.
//!
//! The energy of a pixel is the squared-gradient magnitude over the
//! color channels, taken against the horizontal and vertical neighbors
//! (clamped at the edges). A seam is one column index per row, moving
//! at most one column between rows; the seam found minimizes the
//! cumulative energy of the dynamic-programming recurrence.

use vstd::prelude::*;

use crate::pixel::imin;
use crate::pixel::Pixel;
use crate::pixel::PixelBuffer;

verus! {

/// The squared difference of two channel values.
pub open spec fn sq_diff(a: u8, b: u8) -> int {
    ((a as int) - (b as int)) * ((a as int) - (b as int))
}

/// The squared gradient between two pixels over the color channels.
pub open spec fn pix_grad(p: Pixel, q: Pixel) -> int {
    sq_diff(p.r, q.r) + sq_diff(p.g, q.g) + sq_diff(p.b, q.b)
}

pub proof fn lemma_pix_grad_bounds(p: Pixel, q: Pixel)
    ensures
        0 <= pix_grad(p, q) <= 195075,
{
    lemma_sq_diff_bounds(p.r, q.r);
    lemma_sq_diff_bounds(p.g, q.g);
    lemma_sq_diff_bounds(p.b, q.b);
}

pub proof fn lemma_sq_diff_bounds(a: u8, b: u8)
    ensures
        0 <= sq_diff(a, b) <= 65025,
{
    let d = (a as int) - (b as int);
    assert(0 <= d * d <= 65025) by (nonlinear_arith)
        requires
            -255 <= d <= 255,
    ;
}

/// The energy of the pixel at (x, y): the gradient between its left
/// and right neighbors plus the gradient between its upper and lower
/// neighbors, neighbors clamped to the grid.
pub open spec fn energy_at(g: Seq<Seq<Pixel>>, w: int, h: int, x: int, y: int) -> int {
    let xl = if x > 0 {
        x - 1
    } else {
        x
    };
    let xr = if x + 1 < w {
        x + 1
    } else {
        x
    };
    let yu = if y > 0 {
        y - 1
    } else {
        y
    };
    let yd = if y + 1 < h {
        y + 1
    } else {
        y
    };
    pix_grad(g[y][xl], g[y][xr]) + pix_grad(g[yu][x], g[yd][x])
}

pub proof fn lemma_energy_bounds(g: Seq<Seq<Pixel>>, w: int, h: int, x: int, y: int)
    ensures
        0 <= energy_at(g, w, h, x, y) <= 390150,
{
    let xl = if x > 0 {
        x - 1
    } else {
        x
    };
    let xr = if x + 1 < w {
        x + 1
    } else {
        x
    };
    let yu = if y > 0 {
        y - 1
    } else {
        y
    };
    let yd = if y + 1 < h {
        y + 1
    } else {
        y
    };
    lemma_sq_diff_bounds(g[y][xl].r, g[y][xr].r);
    lemma_sq_diff_bounds(g[y][xl].g, g[y][xr].g);
    lemma_sq_diff_bounds(g[y][xl].b, g[y][xr].b);
    lemma_sq_diff_bounds(g[yu][x].r, g[yd][x].r);
    lemma_sq_diff_bounds(g[yu][x].g, g[yd][x].g);
    lemma_sq_diff_bounds(g[yu][x].b, g[yd][x].b);
}

/// The least cumulative energy of any 8-connected path from the top
/// row down to (x, y), by the dynamic-programming recurrence.
pub open spec fn dp(g: Seq<Seq<Pixel>>, w: int, h: int, x: int, y: int) -> int
    decreases y,
{
    if y <= 0 {
        energy_at(g, w, h, x, 0)
    } else {
        let m0 = dp(g, w, h, x, y - 1);
        let m1 = if x > 0 {
            imin(dp(g, w, h, x - 1, y - 1), m0)
        } else {
            m0
        };
        let m2 = if x + 1 < w {
            imin(dp(g, w, h, x + 1, y - 1), m1)
        } else {
            m1
        };
        energy_at(g, w, h, x, y) + m2
    }
}

pub proof fn lemma_dp_bounds(g: Seq<Seq<Pixel>>, w: int, h: int, x: int, y: int)
    requires
        0 <= y,
    ensures
        0 <= dp(g, w, h, x, y) <= (y + 1) * 390150,
    decreases y,
{
    lemma_energy_bounds(g, w, h, x, y);
    if y == 0 {
    } else {
        lemma_dp_bounds(g, w, h, x, y - 1);
        if x > 0 {
            lemma_dp_bounds(g, w, h, x - 1, y - 1);
        }
        if x + 1 < w {
            lemma_dp_bounds(g, w, h, x + 1, y - 1);
        }
    }
}

/// The least entry of the bottom dynamic-programming row among the
/// first `k` columns.
pub open spec fn dp_min_upto(g: Seq<Seq<Pixel>>, w: int, h: int, k: int) -> int
    decreases k,
{
    if k <= 1 {
        dp(g, w, h, 0, h - 1)
    } else {
        imin(dp_min_upto(g, w, h, k - 1), dp(g, w, h, k - 1, h - 1))
    }
}

/// One column index per row, in bounds, moving at most one column
/// between consecutive rows.
pub open spec fn valid_seam(p: Seq<u32>, w: int, h: int) -> bool {
    &&& p.len() == h
    &&& forall|y: int| 0 <= y < h ==> (#[trigger] p[y]) < w
    &&& forall|y: int| 1 <= y < h ==> (p[y] as int) - (#[trigger] p[y - 1] as int) <= 1 && (
    p[y - 1] as int) - (p[y] as int) <= 1
}

/// The total energy of the first `k` rows of a seam.
pub open spec fn seam_cost_upto(g: Seq<Seq<Pixel>>, w: int, h: int, p: Seq<u32>, k: int) -> int
    decreases k,
{
    if k <= 0 {
        0
    } else {
        seam_cost_upto(g, w, h, p, k - 1) + energy_at(g, w, h, p[k - 1] as int, k - 1)
    }
}

/// The total energy of a seam.
pub open spec fn seam_cost(g: Seq<Seq<Pixel>>, w: int, h: int, p: Seq<u32>) -> int {
    seam_cost_upto(g, w, h, p, h)
}

/// A seam whose every row's entry attains the recurrence minimum from
/// its parent telescopes: its cost equals the bottom entry of the
/// dynamic-programming table it ends at.
proof fn lemma_chain_cost(g: Seq<Seq<Pixel>>, w: int, h: int, p: Seq<u32>, k: int)
    requires
        1 <= k <= h,
        p.len() == h,
        forall|y: int| 1 <= y < k ==> #[trigger] dp(g, w, h, p[y] as int, y) == energy_at(g, w, h,
            p[y] as int, y) + dp(g, w, h, p[y - 1] as int, y - 1),
    ensures
        seam_cost_upto(g, w, h, p, k) == dp(g, w, h, p[k - 1] as int, k - 1),
    decreases k,
{
    if k == 1 {
        assert(seam_cost_upto(g, w, h, p, 0) == 0);
    } else {
        lemma_chain_cost(g, w, h, p, k - 1);
        assert(dp(g, w, h, p[k - 1] as int, k - 1) == energy_at(g, w, h, p[k - 1] as int, k - 1)
            + dp(g, w, h, p[k - 2] as int, k - 2));
    }
}

/// The dynamic-programming entry at a seam's row is a lower bound on
/// the seam's cost up to that row.
proof fn lemma_dp_le_seam(g: Seq<Seq<Pixel>>, w: int, h: int, q: Seq<u32>, y: int)
    requires
        valid_seam(q, w, h),
        0 <= y < h,
    ensures
        dp(g, w, h, q[y] as int, y) <= seam_cost_upto(g, w, h, q, y + 1),
    decreases y,
{
    if y == 0 {
        assert(seam_cost_upto(g, w, h, q, 0) == 0);
    } else {
        lemma_dp_le_seam(g, w, h, q, y - 1);
        let x = q[y] as int;
        let xp = q[y - 1] as int;
        assert(xp - x <= 1 && x - xp <= 1);
        assert(0 <= xp < w);
    }
}

proof fn lemma_dp_min_le(g: Seq<Seq<Pixel>>, w: int, h: int, x: int, k: int)
    requires
        0 <= x < k,
    ensures
        dp_min_upto(g, w, h, k) <= dp(g, w, h, x, h - 1),
    decreases k,
{
    if k > 1 && x < k - 1 {
        lemma_dp_min_le(g, w, h, x, k - 1);
    }
}

/// The seam the search returns is minimal: no valid seam of the grid
/// costs less than the least bottom-row entry of the
/// dynamic-programming table, which the returned seam attains.
pub proof fn lemma_seam_minimal(g: Seq<Seq<Pixel>>, w: int, h: int, q: Seq<u32>)
    requires
        valid_seam(q, w, h),
        1 <= h,
    ensures
        dp_min_upto(g, w, h, w) <= seam_cost(g, w, h, q),
{
    lemma_dp_le_seam(g, w, h, q, h - 1);
    assert(0 <= q[h - 1] < w);
    lemma_dp_min_le(g, w, h, q[h - 1] as int, w);
}

/// The grid with one pixel removed from each row, at the seam's
/// column; the pixels to its right move one column left.
pub open spec fn remove_seam_grid(g: Seq<Seq<Pixel>>, p: Seq<u32>) -> Seq<Seq<Pixel>> {
    Seq::new(g.len(), |y: int| Seq::new((g[y].len() - 1) as nat, |x: int|
        if x < p[y] {
            g[y][x]
        } else {
            g[y][x + 1]
        }))
}

fn grad_exec(p: Pixel, q: Pixel) -> (r: u32)
    ensures
        r as int == pix_grad(p, q),
{
    proof {
        lemma_sq_diff_bounds(p.r, q.r);
        lemma_sq_diff_bounds(p.g, q.g);
        lemma_sq_diff_bounds(p.b, q.b);
    }
    let dr: i64 = p.r as i64 - q.r as i64;
    let dg: i64 = p.g as i64 - q.g as i64;
    let db: i64 = p.b as i64 - q.b as i64;
    (dr * dr + dg * dg + db * db) as u32
}

fn energy_exec(buf: &PixelBuffer, x: usize, y: usize) -> (r: u32)
    requires
        buf.wf(),
        x < buf.width,
        y < buf.height,
    ensures
        r as int == energy_at(buf.grid(), buf.width as int, buf.height as int, x as int, y as int),
{
    let xl = if x > 0 {
        x - 1
    } else {
        x
    };
    let xr = if x + 1 < buf.width as usize {
        x + 1
    } else {
        x
    };
    let yu = if y > 0 {
        y - 1
    } else {
        y
    };
    let yd = if y + 1 < buf.height as usize {
        y + 1
    } else {
        y
    };
    let gh = grad_exec(buf.data[y][xl], buf.data[y][xr]);
    let gv = grad_exec(buf.data[yu][x], buf.data[yd][x]);
    proof {
        lemma_pix_grad_bounds(buf.data@[y as int]@[xl as int], buf.data@[y as int]@[xr as int]);
        lemma_pix_grad_bounds(buf.data@[yu as int]@[x as int], buf.data@[yd as int]@[x as int]);
    }
    gh + gv
}

/// Finds the vertical seam of least cumulative energy: one column per
/// row, 8-connected, whose total energy equals the least bottom-row
/// entry of the dynamic-programming table.
pub fn find_vertical_seam(buf: &PixelBuffer) -> (r: Vec<u32>)
    requires
        buf.wf(),
        buf.width >= 1,
    ensures
        valid_seam(r@, buf.width as int, buf.height as int),
        buf.height > 0 ==> seam_cost(buf.grid(), buf.width as int, buf.height as int, r@)
            == dp_min_upto(buf.grid(), buf.width as int, buf.height as int, buf.width as int),
{
    let ghost g = buf.grid();
    let ghost wi = buf.width as int;
    let ghost hi = buf.height as int;
    let w = buf.width as usize;
    let h = buf.height as usize;
    if h == 0 {
        let r: Vec<u32> = Vec::new();
        return r;
    }
    // Build the dynamic-programming table row by row.
    let mut table: Vec<Vec<u64>> = Vec::new();
    let mut y: usize = 0;
    while y < h
        invariant
            0 <= y <= h,
            buf.wf(),
            g == buf.grid(),
            wi == buf.width as int,
            hi == buf.height as int,
            w == wi,
            h == hi,
            w >= 1,
            table@.len() == y,
            forall|j: int, x: int| 0 <= j < y && 0 <= x < w ==> (#[trigger] table@[j]@[x]) as int
                == dp(g, wi, hi, x, j),
            forall|j: int| 0 <= j < y ==> (#[trigger] table@[j])@.len() == w,
        decreases h - y,
    {
        let mut row: Vec<u64> = Vec::new();
        let mut x: usize = 0;
        while x < w
            invariant
                0 <= x <= w,
                0 <= y < h,
                buf.wf(),
                g == buf.grid(),
                wi == buf.width as int,
                hi == buf.height as int,
                w == wi,
                h == hi,
                w >= 1,
                table@.len() == y,
                forall|j: int, x2: int| 0 <= j < y && 0 <= x2 < w ==> (
                #[trigger] table@[j]@[x2]) as int == dp(g, wi, hi, x2, j),
                forall|j: int| 0 <= j < y ==> (#[trigger] table@[j])@.len() == w,
                row@.len() == x,
                forall|x2: int| 0 <= x2 < x ==> (#[trigger] row@[x2]) as int == dp(g, wi, hi, x2,
                    y as int),
            decreases w - x,
        {
            let e = energy_exec(buf, x, y);
            proof {
                lemma_energy_bounds(g, wi, hi, x as int, y as int);
            }
            let v: u64 = if y == 0 {
                e as u64
            } else {
                let prev = &table[y - 1];
                let mut m: u64 = prev[x];
                if x > 0 {
                    if prev[x - 1] < m {
                        m = prev[x - 1];
                    }
                }
                if x + 1 < w {
                    if prev[x + 1] < m {
                        m = prev[x + 1];
                    }
                }
                proof {
                    lemma_dp_bounds(g, wi, hi, x as int, y as int - 1);
                    if x > 0 {
                        lemma_dp_bounds(g, wi, hi, x as int - 1, y as int - 1);
                    }
                    if x + 1 < w {
                        lemma_dp_bounds(g, wi, hi, x as int + 1, y as int - 1);
                    }
                    assert((y as int) * 390150 <= 0x100000000 * 390150) by (nonlinear_arith)
                        requires
                            0 <= y as int <= 0x100000000,
                    ;
                }
                e as u64 + m
            };
            proof {
                assert(v as int == dp(g, wi, hi, x as int, y as int));
            }
            row.push(v);
            x = x + 1;
        }
        table.push(row);
        y = y + 1;
    }
    // The bottom row's least entry is where the seam ends.
    let last = &table[h - 1];
    let mut best_x: usize = 0;
    let mut best: u64 = last[0];
    let mut x: usize = 1;
    while x < w
        invariant
            1 <= x <= w,
            w == wi,
            h == hi,
            h >= 1,
            last@.len() == w,
            forall|x2: int| 0 <= x2 < w ==> (#[trigger] last@[x2]) as int == dp(g, wi, hi, x2, hi
                - 1),
            0 <= best_x < x,
            best as int == dp_min_upto(g, wi, hi, x as int),
            best as int == dp(g, wi, hi, best_x as int, hi - 1),
        decreases w - x,
    {
        if last[x] < best {
            best = last[x];
            best_x = x;
        }
        x = x + 1;
    }
    // Walk back up, always stepping to a parent that attains the
    // recurrence minimum; the column choices are collected bottom-up.
    let mut rev: Vec<u32> = Vec::new();
    rev.push(best_x as u32);
    let mut cur: usize = best_x;
    let mut yy: usize = h - 1;
    while yy > 0
        invariant
            0 <= yy <= h - 1,
            buf.wf(),
            g == buf.grid(),
            wi == buf.width as int,
            hi == buf.height as int,
            w == wi,
            h == hi,
            w >= 1,
            h >= 1,
            table@.len() == h,
            forall|j: int, x2: int| 0 <= j < h && 0 <= x2 < w ==> (#[trigger] table@[j]@[x2])
                as int == dp(g, wi, hi, x2, j),
            forall|j: int| 0 <= j < h ==> (#[trigger] table@[j])@.len() == w,
            rev@.len() == h - yy,
            cur < w,
            rev@[h - 1 - yy as int] == cur as u32,
            forall|i: int| 0 <= i < rev@.len() ==> (#[trigger] rev@[i]) < w,
            forall|i: int| 1 <= i < rev@.len() ==> ((#[trigger] rev@[i]) as int) - (rev@[i - 1]
                as int) <= 1 && (rev@[i - 1] as int) - (rev@[i] as int) <= 1,
            forall|i: int| 0 <= i < rev@.len() - 1 ==> dp(g, wi, hi, (#[trigger] rev@[i]) as int,
                hi - 1 - i) == energy_at(g, wi, hi, rev@[i] as int, hi - 1 - i) + dp(g, wi, hi,
                rev@[i + 1] as int, hi - 2 - i),
            dp(g, wi, hi, rev@[0] as int, hi - 1) == dp_min_upto(g, wi, hi, wi),
        decreases yy,
    {
        let prev = &table[yy - 1];
        let mut p: usize = cur;
        let mut m: u64 = prev[cur];
        if cur > 0 {
            if prev[cur - 1] < m {
                m = prev[cur - 1];
                p = cur - 1;
            }
        }
        if cur + 1 < w {
            if prev[cur + 1] < m {
                m = prev[cur + 1];
                p = cur + 1;
            }
        }
        proof {
            assert(dp(g, wi, hi, cur as int, yy as int) == energy_at(g, wi, hi, cur as int,
                yy as int) + (m as int));
            assert(m as int == dp(g, wi, hi, p as int, yy as int - 1));
        }
        rev.push(p as u32);
        cur = p;
        yy = yy - 1;
    }
    // Reverse into top-down order.
    let mut path: Vec<u32> = Vec::new();
    let mut i: usize = 0;
    while i < h
        invariant
            0 <= i <= h,
            h >= 1,
            rev@.len() == h,
            path@.len() == i,
            forall|j: int| 0 <= j < i ==> #[trigger] path@[j] == rev@[h - 1 - j],
        decreases h - i,
    {
        path.push(rev[h - 1 - i]);
        i = i + 1;
    }
    proof {
        assert(valid_seam(path@, wi, hi)) by {
            assert forall|y2: int| 0 <= y2 < hi implies (#[trigger] path@[y2]) < wi by {
                assert(path@[y2] == rev@[hi - 1 - y2]);
            }
            assert forall|y2: int| 1 <= y2 < hi implies (path@[y2] as int) - (
            #[trigger] path@[y2 - 1] as int) <= 1 && (path@[y2 - 1] as int) - (path@[y2] as int)
                <= 1 by {
                assert(path@[y2] == rev@[hi - 1 - y2]);
                assert(path@[y2 - 1] == rev@[hi - y2]);
            }
        }
        assert forall|y2: int| 1 <= y2 < hi implies #[trigger] dp(g, wi, hi, path@[y2] as int, y2)
            == energy_at(g, wi, hi, path@[y2] as int, y2) + dp(g, wi, hi, path@[y2 - 1] as int, y2
            - 1) by {
            assert(path@[y2] == rev@[hi - 1 - y2]);
            assert(path@[y2 - 1] == rev@[hi - y2]);
            assert(dp(g, wi, hi, rev@[hi - 1 - y2] as int, y2) == energy_at(g, wi, hi, rev@[hi - 1
                - y2] as int, y2) + dp(g, wi, hi, rev@[hi - y2] as int, y2 - 1));
        }
        lemma_chain_cost(g, wi, hi, path@, hi);
        assert(path@[hi - 1] == rev@[0]);
    }
    path
}

impl PixelBuffer {
    /// Removes the seam's pixel from every row, shrinking the width by
    /// one; each row closes the gap by shifting the pixels on the
    /// seam's right one column left.
    pub fn remove_vertical_seam(&mut self, path: &Vec<u32>)
        requires
            old(self).wf(),
            old(self).width >= 1,
            path@.len() == old(self).height,
            forall|y: int| 0 <= y < old(self).height ==> (#[trigger] path@[y]) < old(self).width,
        ensures
            final(self).wf(),
            final(self).width == old(self).width - 1,
            final(self).height == old(self).height,
            final(self).grid() == remove_seam_grid(old(self).grid(), path@),
    {
        let h = self.data.len();
        let w = self.width as usize;
        let mut data: Vec<Vec<Pixel>> = Vec::new();
        let mut y: usize = 0;
        while y < h
            invariant
                0 <= y <= h,
                old(self) == self,
                self.wf(),
                w == self.width as int,
                w >= 1,
                h == self.data@.len(),
                path@.len() == h,
                forall|j: int| 0 <= j < h ==> (#[trigger] path@[j]) < w,
                data@.len() == y,
                forall|j: int| #![trigger data@[j]]
                    0 <= j < y ==> data@[j]@ == Seq::new((w - 1) as nat, |x: int|
                        if x < path@[j] {
                            self.grid()[j][x]
                        } else {
                            self.grid()[j][x + 1]
                        }),
            decreases h - y,
        {
            let row = &self.data[y];
            let p = path[y] as usize;
            let mut out: Vec<Pixel> = Vec::new();
            let mut x: usize = 0;
            while x < w - 1
                invariant
                    0 <= x <= w - 1,
                    0 <= y < h,
                    self.wf(),
                    w == self.width as int,
                    w >= 1,
                    h == self.data@.len(),
                    row == &self.data[y as int],
                    row@.len() == w,
                    p < w,
                    p == path@[y as int],
                    out@.len() == x,
                    forall|i: int| 0 <= i < x ==> #[trigger] out@[i] == (if i < p {
                        row@[i]
                    } else {
                        row@[i + 1]
                    }),
                decreases w - 1 - x,
            {
                if x < p {
                    out.push(row[x]);
                } else {
                    out.push(row[x + 1]);
                }
                x = x + 1;
            }
            proof {
                assert(out@ =~= Seq::new((w - 1) as nat, |x: int|
                    if x < path@[y as int] {
                        self.grid()[y as int][x]
                    } else {
                        self.grid()[y as int][x + 1]
                    }));
            }
            data.push(out);
            y = y + 1;
        }
        self.width = self.width - 1;
        self.data = data;
        proof {
            assert(self.grid() =~= remove_seam_grid(old(self).grid(), path@));
        }
    }
}

} // verus!
