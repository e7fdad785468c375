//! The pixel buffer: a row-major RGBA byte buffer with bounds-checked pixel
//! writes, a clear operation, a straight-line drawer and a textured-line
//! drawer.
//!
//! Out-of-bounds writes are rejected with `ImageError::OutOfBounds`; every
//! coordinate must lie strictly inside the buffer. Callers that render
//! best-effort simply discard the error and continue.
//!
//! The library's documented maximum resolution is 4096 x 4096: within that
//! cap every byte offset fits a 32-bit `usize` and the line drawers' fixed-
//! point marching arithmetic stays inside the verified `i64` and `u64`
//! ranges. The renderer itself only ever creates a 320 x 240 buffer.

use vstd::prelude::*;
use crate::atlas::TextureAtlas;
use crate::fixed::{isqrt, isqrt_spec, lemma_isqrt_lower, FP_ONE};

verus! {

/// One RGBA color value, passed to write operations and never stored as such.
#[derive(Clone, Copy)]
pub struct Pixel {
    pub r: u8,
    pub g: u8,
    pub b: u8,
    pub a: u8,
}

impl Pixel {
    /// The four channels as a tuple, the shape in which buffer contents are
    /// specified.
    pub open spec fn rgba(&self) -> (u8, u8, u8, u8) {
        (self.r, self.g, self.b, self.a)
    }
}

/// The failures a pixel write can report.
#[derive(Clone, Copy, Debug, PartialEq, Eq)]
pub enum ImageError {
    /// The coordinates lie outside the buffer.
    OutOfBounds,
}

/// Byte offset of the first channel of pixel `(x, y)` in a row-major RGBA
/// buffer of width `w`.
pub open spec fn pix_off(w: int, x: int, y: int) -> int {
    4 * (y * w + x)
}

/// The RGBA tuple of pixel `(x, y)` in a row-major buffer of width `w`.
pub open spec fn pix(d: Seq<u8>, w: int, x: int, y: int) -> (u8, u8, u8, u8) {
    (d[pix_off(w, x, y)], d[pix_off(w, x, y) + 1], d[pix_off(w, x, y) + 2], d[pix_off(w, x, y) + 3])
}

/// A pixel's four bytes lie inside a `w x h` buffer.
pub proof fn lemma_pix_off_in_range(w: int, h: int, x: int, y: int)
    requires
        0 <= x < w,
        0 <= y < h,
    ensures
        0 <= pix_off(w, x, y),
        pix_off(w, x, y) + 4 <= 4 * w * h,
{
    assert(0 <= 4 * (y * w + x) && 4 * (y * w + x) + 4 <= 4 * w * h) by (nonlinear_arith)
        requires 0 <= x < w, 0 <= y < h;
}

/// Distinct pixels of one buffer occupy disjoint byte ranges.
pub proof fn lemma_pix_off_distinct(w: int, x1: int, y1: int, x2: int, y2: int)
    requires
        0 <= x1 < w,
        0 <= x2 < w,
        0 <= y1,
        0 <= y2,
        !(x1 == x2 && y1 == y2),
    ensures
        pix_off(w, x1, y1) + 4 <= pix_off(w, x2, y2) || pix_off(w, x2, y2) + 4 <= pix_off(w, x1, y1),
{
    assert(y1 * w + x1 + 1 <= y2 * w + x2 || y2 * w + x2 + 1 <= y1 * w + x1) by (nonlinear_arith)
        requires 0 <= x1 < w, 0 <= x2 < w, 0 <= y1, 0 <= y2, !(x1 == x2 && y1 == y2);
}

/// Two buffers of the same dimensions that agree on every pixel are equal
/// byte for byte.
pub proof fn lemma_pix_ext(d1: Seq<u8>, d2: Seq<u8>, w: int, h: int)
    requires
        0 <= w,
        0 <= h,
        d1.len() == 4 * w * h,
        d2.len() == 4 * w * h,
        forall|x: int, y: int| 0 <= x < w && 0 <= y < h ==> pix(d1, w, x, y) == pix(d2, w, x, y),
    ensures
        d1 == d2,
{
    assert forall|i: int| 0 <= i < d1.len() implies d1[i] == d2[i] by {
        let q = i / 4;
        let c = i % 4;
        vstd::arithmetic::div_mod::lemma_fundamental_div_mod(i, 4);
        vstd::arithmetic::div_mod::lemma_mod_bound(i, 4);
        assert(0 <= q < w * h) by (nonlinear_arith)
            requires i == 4 * q + c, 0 <= c < 4, 0 <= i < 4 * w * h;
        let y = q / w;
        let x = q % w;
        vstd::arithmetic::div_mod::lemma_fundamental_div_mod(q, w);
        vstd::arithmetic::div_mod::lemma_mod_bound(q, w);
        assert(0 <= y < h) by (nonlinear_arith)
            requires q == w * y + x, 0 <= x < w, 0 <= q < w * h;
        assert(pix_off(w, x, y) == 4 * q) by (nonlinear_arith)
            requires q == w * y + x, pix_off(w, x, y) == 4 * (y * w + x);
        assert(pix(d1, w, x, y) == pix(d2, w, x, y));
        assert(i == 4 * q + c);
    };
    assert(d1 =~= d2);
}

/// Canonical endpoint order of a line segment: the pair is flipped so that
/// the endpoint with the strictly larger x coordinate comes second.
pub open spec fn line_order(x: int, y: int, x2: int, y2: int) -> (int, int, int, int) {
    if x2 > x {
        (x, y, x2, y2)
    } else {
        (x2, y2, x, y)
    }
}

/// Squared Euclidean length of a segment, in pixels.
pub open spec fn line_len2(x: int, y: int, x2: int, y2: int) -> int {
    (x2 - x) * (x2 - x) + (y2 - y) * (y2 - y)
}

/// Fixed-point Euclidean length of a segment (the integer square root of the
/// squared length rescaled to fixed-point).
pub open spec fn line_len_fp(x: int, y: int, x2: int, y2: int) -> int {
    isqrt_spec(line_len2(x, y, x2, y2) * 100000000)
}

/// Number of marching steps: the length divided by the half-unit step,
/// rounded up.
pub open spec fn line_steps(x: int, y: int, x2: int, y2: int) -> int {
    (line_len_fp(x, y, x2, y2) + 4999) / 5000
}

/// Fixed-point advance per marching step along one axis: half a step of the
/// unit direction vector, truncated toward zero.
pub open spec fn line_inc(d: int, l: int) -> int {
    if d >= 0 {
        (d * 100000000) / (2 * l)
    } else {
        -(((-d) * 100000000) / (2 * l))
    }
}

/// Pixel coordinate visited at step `k` of a march that starts at
/// fixed-point `base` and advances by `inc` per step: the fixed-point
/// position truncated to a pixel, saturating below at zero.
pub open spec fn march_px(base: int, inc: int, k: int) -> int {
    let c = base + (k + 1) * inc;
    if c < 0 {
        0
    } else {
        c / (FP_ONE as int)
    }
}

/// The largest step index in `[0, k]` whose marched point is `(x, y)`, if
/// any. The latest step wins because later writes overwrite earlier ones.
pub open spec fn line_last_cover(
    bx: int, incx: int, by: int, incy: int, k: int, x: int, y: int,
) -> Option<int>
    decreases k + 1,
{
    if k < 0 {
        None
    } else if march_px(bx, incx, k) == x && march_px(by, incy, k) == y {
        Some(k)
    } else {
        line_last_cover(bx, incx, by, incy, k - 1, x, y)
    }
}

/// The step index whose write determines pixel `(qx, qy)` when the segment
/// from `(x, y)` to `(x2, y2)` is drawn, if any.
pub open spec fn line_cover_index(
    x: int, y: int, x2: int, y2: int, qx: int, qy: int,
) -> Option<int> {
    let (sx, sy, bx, by) = line_order(x, y, x2, y2);
    let l = line_len_fp(x, y, x2, y2);
    line_last_cover(
        sx * (FP_ONE as int),
        line_inc(bx - sx, l),
        sy * (FP_ONE as int),
        line_inc(by - sy, l),
        line_steps(x, y, x2, y2),
        qx,
        qy,
    )
}

/// Whether drawing the segment from `(x, y)` to `(x2, y2)` touches pixel
/// `(qx, qy)`. A zero-length segment writes its single endpoint.
pub open spec fn line_covers(x: int, y: int, x2: int, y2: int, qx: int, qy: int) -> bool {
    if line_len2(x, y, x2, y2) == 0 {
        qx == x && qy == y
    } else {
        line_cover_index(x, y, x2, y2, qx, qy) is Some
    }
}

/// Texture row sampled at step `k` of `steps`: marching progress is mapped
/// linearly and inverted onto the texture height, truncating the scaled
/// remaining progress, so progress 0 samples the last texel row and full
/// progress samples row 0.
pub open spec fn tex_row_spec(k: int, steps: int) -> int {
    (63 * (steps - k)) / steps
}

/// The RGBA value a textured march writes at step `k`: the atlas texel of
/// column `text_x` at the step's texture row, fully opaque.
pub open spec fn tex_line_color(atlas: TextureAtlas, text_x: int, k: int, steps: int)
    -> (u8, u8, u8, u8) {
    let t = atlas.texel(text_x, tex_row_spec(k, steps));
    (t.0, t.1, t.2, 255u8)
}


/// The gradient color `draw_test_image` writes at `(qx, qy)`: red rises with
/// the row, green with the column, each taken modulo 256 as an 8-bit cast
/// would.
pub open spec fn gradient_pix(w: int, h: int, qx: int, qy: int) -> (u8, u8, u8, u8) {
    ((((250 * qy) / h) % 256) as u8, (((250 * qx) / w) % 256) as u8, 0u8, 255u8)
}

/// A row-major RGBA byte buffer of fixed dimensions, mutated in place and
/// never resized.
pub struct ImageData {
    pub width: usize,
    pub height: usize,
    pub data: Vec<u8>,
}

/// A `Vec` of `n` copies of `v`.
fn filled(n: usize, v: u8) -> (r: Vec<u8>)
    ensures
        r@.len() == n,
        forall|i: int| 0 <= i < n ==> r@[i] == v,
{
    let mut out: Vec<u8> = Vec::new();
    let mut i: usize = 0;
    while i < n
        invariant
            i <= n,
            out@.len() == i,
            forall|j: int| 0 <= j < i ==> out@[j] == v,
        decreases n - i,
    {
        out.push(v);
        i = i + 1;
    }
    out
}

impl ImageData {
    /// The byte storage matches the dimensions and the dimensions respect
    /// the library's documented 4096-per-side resolution cap, under which
    /// every offset computation fits in `usize` and the drawers' marching
    /// arithmetic stays in range.
    pub open spec fn wf(&self) -> bool {
        self.data@.len() == 4 * (self.width as int) * (self.height as int)
        && self.width <= 4096
        && self.height <= 4096
    }

    /// The RGBA tuple currently stored for pixel `(x, y)`.
    pub open spec fn pixel_at(&self, x: int, y: int) -> (u8, u8, u8, u8) {
        pix(self.data@, self.width as int, x, y)
    }

    /// Allocates a `width x height` buffer pre-filled fully opaque white;
    /// dimensions are capped at the library's documented maximum
    /// resolution of 4096 per side.
    pub fn new(width: usize, height: usize) -> (r: ImageData)
        requires
            width <= 4096,
            height <= 4096,
        ensures
            r.wf(),
            r.width == width,
            r.height == height,
            forall|i: int| 0 <= i < r.data@.len() ==> r.data@[i] == 255u8,
    {
        proof {
            assert(0 <= 4 * (width as int) * (height as int) <= 67108864) by (nonlinear_arith)
                requires width <= 4096, height <= 4096;
        }
        let n: usize = 4 * width * height;
        ImageData { width, height, data: filled(n, 255) }
    }

    /// Resets every byte to the initial fully-opaque-white fill.
    pub fn clear(&mut self)
        requires
            old(self).wf(),
        ensures
            final(self).wf(),
            final(self).width == old(self).width,
            final(self).height == old(self).height,
            forall|i: int| 0 <= i < final(self).data@.len() ==> final(self).data@[i] == 255u8,
    {
        proof {
            assert(0 <= 4 * (self.width as int) * (self.height as int) <= 67108864)
                by (nonlinear_arith)
                requires self.width <= 4096, self.height <= 4096;
        }
        let n: usize = 4 * self.width * self.height;
        self.data = filled(n, 255);
    }

    /// Writes the four channel bytes of `pixel` at `(x, y)`; coordinates on
    /// or past the edge are rejected with `OutOfBounds` before anything is
    /// written.
    pub fn set_pixel(&mut self, x: usize, y: usize, pixel: &Pixel) -> (r: Result<(), ImageError>)
        requires
            old(self).wf(),
        ensures
            final(self).wf(),
            final(self).width == old(self).width,
            final(self).height == old(self).height,
            final(self).data@.len() == old(self).data@.len(),
            r is Ok <==> (x < old(self).width && y < old(self).height),
            r is Ok ==> final(self).pixel_at(x as int, y as int) == pixel.rgba(),
            forall|qx: int, qy: int|
                0 <= qx < old(self).width && 0 <= qy < old(self).height
                    && !(qx == x as int && qy == y as int)
                ==> final(self).pixel_at(qx, qy) == old(self).pixel_at(qx, qy),
            r is Err ==> final(self).data@ == old(self).data@,
    {
        if x >= self.width || y >= self.height {
            return Err(ImageError::OutOfBounds);
        }
        proof {
            lemma_pix_off_in_range(self.width as int, self.height as int, x as int, y as int);
            assert(0 <= (y as int) * (self.width as int) + (x as int)
                && (y as int) * (self.width as int) + (x as int) <= 16781312) by (nonlinear_arith)
                requires 0 <= (x as int) < self.width as int, 0 <= (y as int) < self.height as int,
                    self.width <= 4096, self.height <= 4096;
        }
        let off: usize = (y * self.width + x) * 4;
        self.data[off] = pixel.r;
        self.data[off + 1] = pixel.g;
        self.data[off + 2] = pixel.b;
        self.data[off + 3] = pixel.a;
        proof {
            assert forall|qx: int, qy: int|
                0 <= qx < self.width && 0 <= qy < self.height
                    && !(qx == x as int && qy == y as int)
                implies self.pixel_at(qx, qy) == old(self).pixel_at(qx, qy) by {
                lemma_pix_off_in_range(self.width as int, self.height as int, qx, qy);
                lemma_pix_off_distinct(self.width as int, x as int, y as int, qx, qy);
            };
        }
        Ok(())
    }

    /// Draws a straight segment between two points by marching in half-unit
    /// fixed-point steps and writing `pixel` at each truncated coordinate;
    /// endpoints outside the buffer are rejected before anything is written.
    /// A zero-length segment is a single pixel write.
    pub fn draw_line(&mut self, x: usize, y: usize, x2: usize, y2: usize, pixel: &Pixel)
        -> (r: Result<(), ImageError>)
        requires
            old(self).wf(),
        ensures
            final(self).wf(),
            final(self).width == old(self).width,
            final(self).height == old(self).height,
            final(self).data@.len() == old(self).data@.len(),
            r is Ok <==> (x < old(self).width && x2 < old(self).width
                && y < old(self).height && y2 < old(self).height),
            r is Err ==> final(self).data@ == old(self).data@,
            r is Ok ==> forall|qx: int, qy: int|
                0 <= qx < old(self).width && 0 <= qy < old(self).height
                ==> final(self).pixel_at(qx, qy)
                    == (if line_covers(x as int, y as int, x2 as int, y2 as int, qx, qy) {
                        pixel.rgba()
                    } else {
                        old(self).pixel_at(qx, qy)
                    }),
    {
        if x >= self.width || x2 >= self.width || y >= self.height || y2 >= self.height {
            return Err(ImageError::OutOfBounds);
        }
        let ghost w = self.width as int;
        let ghost h = self.height as int;
        let ghost data0 = self.data@;
        let (pair_a, pair_b) = if x2 > x { ((x, y), (x2, y2)) } else { ((x2, y2), (x, y)) };
        let (sx, sy) = pair_a;
        let (bx, by) = pair_b;
        let dx: i64 = bx as i64 - sx as i64;
        let dy: i64 = by as i64 - sy as i64;
        proof {
            assert(0 <= dx <= 4095);
            assert(-4095 <= dy <= 4095);
            assert(0 <= (dx as int) * (dx as int) <= 16769025
                && 0 <= (dy as int) * (dy as int) <= 16769025
                && 0 <= (dx as int) * (dx as int) + (dy as int) * (dy as int) <= 33538050)
                by (nonlinear_arith)
                requires 0 <= dx <= 4095, -4095 <= dy <= 4095;
        }
        let len2: u64 = (dx * dx + dy * dy) as u64;
        let ghost lx = x as int;
        let ghost ly = y as int;
        let ghost lx2 = x2 as int;
        let ghost ly2 = y2 as int;
        proof {
            assert(len2 as int == line_len2(lx, ly, lx2, ly2)) by (nonlinear_arith)
                requires len2 as int == (dx as int) * (dx as int) + (dy as int) * (dy as int),
                    dx as int == (if lx2 > lx { lx2 - lx } else { lx - lx2 }),
                    dy as int == (if lx2 > lx { ly2 - ly } else { ly - ly2 }),
                    line_len2(lx, ly, lx2, ly2)
                        == (lx2 - lx) * (lx2 - lx) + (ly2 - ly) * (ly2 - ly);
        }
        if len2 == 0 {
            let _ = self.set_pixel(x, y, pixel);
            return Ok(());
        }
        proof {
            assert((len2 as int) * 100000000 <= 3400000000000000
                && 100000000 <= (len2 as int) * 100000000) by (nonlinear_arith)
                requires 1 <= len2 as int <= 33538050;
        }
        let n: u64 = len2 * 100000000;
        let l_u: u64 = isqrt(n);
        proof {
            lemma_isqrt_lower(n as int, 10000);
            if l_u as int >= 60000000 {
                assert(false) by (nonlinear_arith)
                    requires (l_u as int) * (l_u as int) <= n as int, n as int <= 3400000000000000,
                        l_u as int >= 60000000;
            }
        }
        let l: i64 = l_u as i64;
        let steps: u64 = (l_u + 4999) / 5000;
        proof {
            vstd::arithmetic::div_mod::lemma_div_is_ordered(10000int + 4999, l_u as int + 4999, 5000);
            vstd::arithmetic::div_mod::lemma_div_is_ordered(l_u as int + 4999, 59999999int + 4999, 5000);
            assert(steps as int == line_steps(lx, ly, lx2, ly2));
            assert(2 <= steps <= 12000);
            assert((dx as int) * 10000 * ((dx as int) * 10000) <= n as int
                && (if dy >= 0 { dy as int } else { -(dy as int) }) * 10000
                    * ((if dy >= 0 { dy as int } else { -(dy as int) }) * 10000) <= n as int)
                by (nonlinear_arith)
                requires n as int == ((dx as int) * (dx as int) + (dy as int) * (dy as int))
                    * 100000000, 0 <= dx, -4095 <= dy <= 4095;
            lemma_isqrt_lower(n as int, (dx as int) * 10000);
            lemma_isqrt_lower(n as int, (if dy >= 0 { dy as int } else { -(dy as int) }) * 10000);
            lemma_line_inc_bound(dx as int, l as int);
            lemma_line_inc_bound(if dy >= 0 { dy as int } else { -(dy as int) }, l as int);
        }
        let incx: i64 = (dx * 100000000) / (2 * l);
        let incy: i64 = if dy >= 0 {
            (dy * 100000000) / (2 * l)
        } else {
            -(((-dy) * 100000000) / (2 * l))
        };
        proof {
            assert(incx == line_inc(dx as int, l as int));
            assert(incy == line_inc(dy as int, l as int));
            assert(0 <= incx <= 5000 && -5000 <= incy <= 5000);
        }
        let mut cx: i64 = sx as i64 * FP_ONE;
        let mut cy: i64 = sy as i64 * FP_ONE;
        let ghost bxfp = (sx as int) * (FP_ONE as int);
        let ghost byfp = (sy as int) * (FP_ONE as int);
        let mut k: u64 = 0;
        while k <= steps
            invariant
                self.wf(),
                self.width as int == w,
                self.height as int == h,
                self.data@.len() == data0.len(),
                0 <= k <= steps + 1,
                2 <= steps <= 12000,
                -5000 <= incx <= 5000,
                -5000 <= incy <= 5000,
                0 <= bxfp <= 40950000,
                0 <= byfp <= 40950000,
                cx == bxfp + (k as int) * incx,
                cy == byfp + (k as int) * incy,
                forall|qx: int, qy: int| 0 <= qx < w && 0 <= qy < h
                    ==> pix(self.data@, w, qx, qy)
                        == (if line_last_cover(bxfp, incx as int, byfp, incy as int, k as int - 1, qx, qy)
                                is Some {
                            pixel.rgba()
                        } else {
                            pix(data0, w, qx, qy)
                        }),
            decreases steps + 1 - k,
        {
            proof {
                assert(-60010000 <= (k as int) * incx <= 60010000
                    && -60010000 <= ((k as int) + 1) * incx <= 60010000
                    && -60010000 <= (k as int) * incy <= 60010000
                    && -60010000 <= ((k as int) + 1) * incy <= 60010000) by (nonlinear_arith)
                    requires 0 <= k as int <= 12001, -5000 <= incx <= 5000, -5000 <= incy <= 5000;
            }
            cx = cx + incx;
            cy = cy + incy;
            proof {
                assert(((k as int) + 1) * (incx as int)
                    == (k as int) * (incx as int) + (incx as int)
                    && ((k as int) + 1) * (incy as int)
                    == (k as int) * (incy as int) + (incy as int)) by (nonlinear_arith);
            }
            let px: usize = if cx < 0 { 0 } else { (cx / FP_ONE) as usize };
            let py: usize = if cy < 0 { 0 } else { (cy / FP_ONE) as usize };
            proof {
                if cx >= 0 {
                    vstd::arithmetic::div_mod::lemma_div_pos_is_pos(cx as int, FP_ONE as int);
                    vstd::arithmetic::div_mod::lemma_div_is_ordered(
                        cx as int, 101000000, FP_ONE as int);
                }
                if cy >= 0 {
                    vstd::arithmetic::div_mod::lemma_div_pos_is_pos(cy as int, FP_ONE as int);
                    vstd::arithmetic::div_mod::lemma_div_is_ordered(
                        cy as int, 101000000, FP_ONE as int);
                }
                assert(px as int == march_px(bxfp, incx as int, k as int));
                assert(py as int == march_px(byfp, incy as int, k as int));
            }
            let ghost pre = self.data@;
            let _ = self.set_pixel(px, py, pixel);
            proof {
                assert forall|qx: int, qy: int| 0 <= qx < w && 0 <= qy < h
                    implies pix(self.data@, w, qx, qy)
                        == (if line_last_cover(bxfp, incx as int, byfp, incy as int, k as int, qx, qy)
                                is Some {
                            pixel.rgba()
                        } else {
                            pix(data0, w, qx, qy)
                        }) by {
                    if qx == px as int && qy == py as int {
                        assert(line_last_cover(bxfp, incx as int, byfp, incy as int, k as int, qx, qy)
                            == Some(k as int));
                        assert(self.pixel_at(qx, qy) == pixel.rgba());
                    } else {
                        assert(line_last_cover(bxfp, incx as int, byfp, incy as int, k as int, qx, qy)
                            == line_last_cover(bxfp, incx as int, byfp, incy as int, k as int - 1, qx, qy));
                        assert(self.pixel_at(qx, qy) == pix(self.data@, w, qx, qy));
                        assert(pix(self.data@, w, qx, qy) == pix(pre, w, qx, qy));
                    }
                };
            }
            k = k + 1;
        }
        proof {
            assert forall|qx: int, qy: int| 0 <= qx < w && 0 <= qy < h
                implies pix(self.data@, w, qx, qy)
                    == (if line_covers(lx, ly, lx2, ly2, qx, qy) {
                        pixel.rgba()
                    } else {
                        pix(data0, w, qx, qy)
                    }) by {
                assert(line_cover_index(lx, ly, lx2, ly2, qx, qy)
                    == line_last_cover(bxfp, incx as int, byfp, incy as int, steps as int, qx, qy));
            };
        }
        Ok(())
    }

    /// Draws a textured vertical wall slice: the same marching as
    /// `draw_line`, but each step samples the atlas column `text_x` at the
    /// row given by inverted marching progress, forcing full opacity.
    /// A zero-length segment writes one pixel sampled from the last row.
    pub fn draw_line_texture(&mut self, x: usize, y: usize, x2: usize, y2: usize,
        atlas: &TextureAtlas, text_x: usize)
        -> (r: Result<(), ImageError>)
        requires
            old(self).wf(),
            atlas.wf(),
            atlas.height == 64,
            text_x < atlas.width,
        ensures
            final(self).wf(),
            final(self).width == old(self).width,
            final(self).height == old(self).height,
            final(self).data@.len() == old(self).data@.len(),
            r is Ok <==> (x < old(self).width && x2 < old(self).width
                && y < old(self).height && y2 < old(self).height),
            r is Err ==> final(self).data@ == old(self).data@,
            r is Ok ==> forall|qx: int, qy: int|
                0 <= qx < old(self).width && 0 <= qy < old(self).height
                ==> final(self).pixel_at(qx, qy)
                    == (if line_len2(x as int, y as int, x2 as int, y2 as int) == 0 {
                        if qx == x as int && qy == y as int {
                            tex_line_color(*atlas, text_x as int, 0, 1)
                        } else {
                            old(self).pixel_at(qx, qy)
                        }
                    } else {
                        match line_cover_index(x as int, y as int, x2 as int, y2 as int, qx, qy) {
                            Some(k) => tex_line_color(*atlas, text_x as int, k,
                                line_steps(x as int, y as int, x2 as int, y2 as int)),
                            None => old(self).pixel_at(qx, qy),
                        }
                    }),
    {
        if x >= self.width || x2 >= self.width || y >= self.height || y2 >= self.height {
            return Err(ImageError::OutOfBounds);
        }
        let ghost w = self.width as int;
        let ghost h = self.height as int;
        let ghost data0 = self.data@;
        let (pair_a, pair_b) = if x2 > x { ((x, y), (x2, y2)) } else { ((x2, y2), (x, y)) };
        let (sx, sy) = pair_a;
        let (bx, by) = pair_b;
        let dx: i64 = bx as i64 - sx as i64;
        let dy: i64 = by as i64 - sy as i64;
        proof {
            assert(0 <= dx <= 4095);
            assert(-4095 <= dy <= 4095);
            assert(0 <= (dx as int) * (dx as int) <= 16769025
                && 0 <= (dy as int) * (dy as int) <= 16769025
                && 0 <= (dx as int) * (dx as int) + (dy as int) * (dy as int) <= 33538050)
                by (nonlinear_arith)
                requires 0 <= dx <= 4095, -4095 <= dy <= 4095;
        }
        let len2: u64 = (dx * dx + dy * dy) as u64;
        let ghost lx = x as int;
        let ghost ly = y as int;
        let ghost lx2 = x2 as int;
        let ghost ly2 = y2 as int;
        proof {
            assert(len2 as int == line_len2(lx, ly, lx2, ly2)) by (nonlinear_arith)
                requires len2 as int == (dx as int) * (dx as int) + (dy as int) * (dy as int),
                    dx as int == (if lx2 > lx { lx2 - lx } else { lx - lx2 }),
                    dy as int == (if lx2 > lx { ly2 - ly } else { ly - ly2 }),
                    line_len2(lx, ly, lx2, ly2)
                        == (lx2 - lx) * (lx2 - lx) + (ly2 - ly) * (ly2 - ly);
        }
        if len2 == 0 {
            let texel0 = atlas.sample(text_x, 63);
            let (tr, tg, tb) = texel0;
            let _ = self.set_pixel(x, y, &(Pixel { r: tr, g: tg, b: tb, a: 255 }));
            proof {
                assert(tex_line_color(*atlas, text_x as int, 0, 1)
                    == (tr, tg, tb, 255u8));
            }
            return Ok(());
        }
        proof {
            assert((len2 as int) * 100000000 <= 3400000000000000
                && 100000000 <= (len2 as int) * 100000000) by (nonlinear_arith)
                requires 1 <= len2 as int <= 33538050;
        }
        let n: u64 = len2 * 100000000;
        let l_u: u64 = isqrt(n);
        proof {
            lemma_isqrt_lower(n as int, 10000);
            if l_u as int >= 60000000 {
                assert(false) by (nonlinear_arith)
                    requires (l_u as int) * (l_u as int) <= n as int, n as int <= 3400000000000000,
                        l_u as int >= 60000000;
            }
        }
        let l: i64 = l_u as i64;
        let steps: u64 = (l_u + 4999) / 5000;
        proof {
            vstd::arithmetic::div_mod::lemma_div_is_ordered(10000int + 4999, l_u as int + 4999, 5000);
            vstd::arithmetic::div_mod::lemma_div_is_ordered(l_u as int + 4999, 59999999int + 4999, 5000);
            assert(steps as int == line_steps(lx, ly, lx2, ly2));
            assert(2 <= steps <= 12000);
            assert((dx as int) * 10000 * ((dx as int) * 10000) <= n as int
                && (if dy >= 0 { dy as int } else { -(dy as int) }) * 10000
                    * ((if dy >= 0 { dy as int } else { -(dy as int) }) * 10000) <= n as int)
                by (nonlinear_arith)
                requires n as int == ((dx as int) * (dx as int) + (dy as int) * (dy as int))
                    * 100000000, 0 <= dx, -4095 <= dy <= 4095;
            lemma_isqrt_lower(n as int, (dx as int) * 10000);
            lemma_isqrt_lower(n as int, (if dy >= 0 { dy as int } else { -(dy as int) }) * 10000);
            lemma_line_inc_bound(dx as int, l as int);
            lemma_line_inc_bound(if dy >= 0 { dy as int } else { -(dy as int) }, l as int);
        }
        let incx: i64 = (dx * 100000000) / (2 * l);
        let incy: i64 = if dy >= 0 {
            (dy * 100000000) / (2 * l)
        } else {
            -(((-dy) * 100000000) / (2 * l))
        };
        proof {
            assert(incx == line_inc(dx as int, l as int));
            assert(incy == line_inc(dy as int, l as int));
            assert(0 <= incx <= 5000 && -5000 <= incy <= 5000);
        }
        let mut cx: i64 = sx as i64 * FP_ONE;
        let mut cy: i64 = sy as i64 * FP_ONE;
        let ghost bxfp = (sx as int) * (FP_ONE as int);
        let ghost byfp = (sy as int) * (FP_ONE as int);
        let mut k: u64 = 0;
        while k <= steps
            invariant
                self.wf(),
                self.width as int == w,
                self.height as int == h,
                self.data@.len() == data0.len(),
                atlas.wf(),
                atlas.height == 64,
                text_x < atlas.width,
                0 <= k <= steps + 1,
                2 <= steps <= 12000,
                -5000 <= incx <= 5000,
                -5000 <= incy <= 5000,
                0 <= bxfp <= 40950000,
                0 <= byfp <= 40950000,
                cx == bxfp + (k as int) * incx,
                cy == byfp + (k as int) * incy,
                forall|qx: int, qy: int| 0 <= qx < w && 0 <= qy < h
                    ==> pix(self.data@, w, qx, qy)
                        == (match line_last_cover(bxfp, incx as int, byfp, incy as int,
                                k as int - 1, qx, qy) {
                            Some(j) => tex_line_color(*atlas, text_x as int, j, steps as int),
                            None => pix(data0, w, qx, qy),
                        }),
            decreases steps + 1 - k,
        {
            proof {
                assert(-60010000 <= (k as int) * incx <= 60010000
                    && -60010000 <= ((k as int) + 1) * incx <= 60010000
                    && -60010000 <= (k as int) * incy <= 60010000
                    && -60010000 <= ((k as int) + 1) * incy <= 60010000) by (nonlinear_arith)
                    requires 0 <= k as int <= 12001, -5000 <= incx <= 5000, -5000 <= incy <= 5000;
            }
            cx = cx + incx;
            cy = cy + incy;
            proof {
                assert(((k as int) + 1) * (incx as int)
                    == (k as int) * (incx as int) + (incx as int)
                    && ((k as int) + 1) * (incy as int)
                    == (k as int) * (incy as int) + (incy as int)) by (nonlinear_arith);
            }
            let px: usize = if cx < 0 { 0 } else { (cx / FP_ONE) as usize };
            let py: usize = if cy < 0 { 0 } else { (cy / FP_ONE) as usize };
            proof {
                if cx >= 0 {
                    vstd::arithmetic::div_mod::lemma_div_pos_is_pos(cx as int, FP_ONE as int);
                    vstd::arithmetic::div_mod::lemma_div_is_ordered(
                        cx as int, 101000000, FP_ONE as int);
                }
                if cy >= 0 {
                    vstd::arithmetic::div_mod::lemma_div_pos_is_pos(cy as int, FP_ONE as int);
                    vstd::arithmetic::div_mod::lemma_div_is_ordered(
                        cy as int, 101000000, FP_ONE as int);
                }
                assert(px as int == march_px(bxfp, incx as int, k as int));
                assert(py as int == march_px(byfp, incy as int, k as int));
            }
            proof {
                assert(0 <= 63 * ((steps as int) - k as int)
                    && 63 * ((steps as int) - k as int) <= 63 * (steps as int) + 0)
                    by (nonlinear_arith)
                    requires 0 <= k as int <= steps as int;
                vstd::arithmetic::div_mod::lemma_div_pos_is_pos(
                    63 * ((steps as int) - k as int), steps as int);
                vstd::arithmetic::div_mod::lemma_div_is_ordered(
                    63 * ((steps as int) - k as int), 63 * (steps as int) + 0, steps as int);
                vstd::arithmetic::div_mod::lemma_div_multiples_vanish_fancy(
                    63, 0, steps as int);
            }
            let ty_u: u64 = (63 * (steps - k)) / steps;
            let ty: usize = ty_u as usize;
            proof {
                assert(ty as int == tex_row_spec(k as int, steps as int));
            }
            let texel_k = atlas.sample(text_x, ty);
            let (tr, tg, tb) = texel_k;
            let ghost pre = self.data@;
            let _ = self.set_pixel(px, py, &(Pixel { r: tr, g: tg, b: tb, a: 255 }));
            proof {
                assert forall|qx: int, qy: int| 0 <= qx < w && 0 <= qy < h
                    implies pix(self.data@, w, qx, qy)
                        == (match line_last_cover(bxfp, incx as int, byfp, incy as int,
                                k as int, qx, qy) {
                            Some(j) => tex_line_color(*atlas, text_x as int, j, steps as int),
                            None => pix(data0, w, qx, qy),
                        }) by {
                    if qx == px as int && qy == py as int {
                        assert(line_last_cover(bxfp, incx as int, byfp, incy as int, k as int, qx, qy)
                            == Some(k as int));
                        assert(self.pixel_at(qx, qy)
                            == tex_line_color(*atlas, text_x as int, k as int, steps as int));
                    } else {
                        assert(line_last_cover(bxfp, incx as int, byfp, incy as int, k as int, qx, qy)
                            == line_last_cover(bxfp, incx as int, byfp, incy as int, k as int - 1, qx, qy));
                        assert(self.pixel_at(qx, qy) == pix(self.data@, w, qx, qy));
                        assert(pix(self.data@, w, qx, qy) == pix(pre, w, qx, qy));
                    }
                };
            }
            k = k + 1;
        }
        proof {
            assert forall|qx: int, qy: int| 0 <= qx < w && 0 <= qy < h
                implies pix(self.data@, w, qx, qy)
                    == (match line_cover_index(lx, ly, lx2, ly2, qx, qy) {
                        Some(j) => tex_line_color(*atlas, text_x as int, j,
                            line_steps(lx, ly, lx2, ly2)),
                        None => pix(data0, w, qx, qy),
                    }) by {
                assert(line_cover_index(lx, ly, lx2, ly2, qx, qy)
                    == line_last_cover(bxfp, incx as int, byfp, incy as int, steps as int, qx, qy));
            };
        }
        Ok(())
    }

    /// Clears the buffer to white and paints a 30 x 30 two-axis color
    /// gradient with its top-left corner at `(x, y)`; the parts of the
    /// square outside the buffer are skipped.
    pub fn draw_test_image(&mut self, x: u32, y: u32)
        requires
            old(self).wf(),
            old(self).width >= 1,
            old(self).height >= 1,
            x <= 16000000,
            y <= 16000000,
        ensures
            final(self).wf(),
            final(self).width == old(self).width,
            final(self).height == old(self).height,
            final(self).data@.len() == old(self).data@.len(),
            forall|qx: int, qy: int|
                0 <= qx < old(self).width && 0 <= qy < old(self).height
                ==> final(self).pixel_at(qx, qy)
                    == (if x as int <= qx < x as int + 30 && y as int <= qy < y as int + 30 {
                        gradient_pix(old(self).width as int, old(self).height as int, qx, qy)
                    } else {
                        (255u8, 255u8, 255u8, 255u8)
                    }),
    {
        let ghost w = self.width as int;
        let ghost h = self.height as int;
        self.clear();
        proof {
            assert forall|qx: int, qy: int| 0 <= qx < w && 0 <= qy < h
                implies self.pixel_at(qx, qy) == (255u8, 255u8, 255u8, 255u8) by {
                lemma_pix_off_in_range(w, h, qx, qy);
            };
        }
        let mut index: u32 = x;
        while index < x + 30
            invariant
                self.wf(),
                self.width as int == w,
                self.height as int == h,
                1 <= w,
                1 <= h,
                x <= 16000000,
                y <= 16000000,
                x <= index <= x + 30,
                forall|qx: int, qy: int| 0 <= qx < w && 0 <= qy < h
                    ==> self.pixel_at(qx, qy)
                        == (if x as int <= qx < index as int && y as int <= qy < y as int + 30 {
                            gradient_pix(w, h, qx, qy)
                        } else {
                            (255u8, 255u8, 255u8, 255u8)
                        }),
            decreases x + 30 - index,
        {
            let mut yindex: u32 = y;
            while yindex < y + 30
                invariant
                    self.wf(),
                    self.width as int == w,
                    self.height as int == h,
                    1 <= w,
                    1 <= h,
                    x <= 16000000,
                    y <= 16000000,
                    x <= index < x + 30,
                    y <= yindex <= y + 30,
                    forall|qx: int, qy: int| 0 <= qx < w && 0 <= qy < h
                        ==> self.pixel_at(qx, qy)
                            == (if (x as int <= qx < index as int && y as int <= qy < y as int + 30)
                                    || (qx == index as int && y as int <= qy < yindex as int) {
                                gradient_pix(w, h, qx, qy)
                            } else {
                                (255u8, 255u8, 255u8, 255u8)
                            }),
                decreases y + 30 - yindex,
            {
                let pr: usize = ((250 * (yindex as usize)) / self.height) % 256;
                let pg: usize = ((250 * (index as usize)) / self.width) % 256;
                let _ = self.set_pixel(
                    index as usize,
                    yindex as usize,
                    &(Pixel { r: pr as u8, g: pg as u8, b: 0, a: 255 }),
                );
                yindex = yindex + 1;
            }
            index = index + 1;
        }
    }
}

/// The per-axis advance of a line march is at most half a pixel in
/// fixed-point.
proof fn lemma_line_inc_bound(d: int, l: int)
    requires
        0 <= d,
        0 < l,
        d * 10000 <= l,
    ensures
        0 <= (d * 100000000) / (2 * l) <= 5000,
{
    vstd::arithmetic::div_mod::lemma_div_pos_is_pos(d * 100000000, 2 * l);
    assert(d * 100000000 <= (2 * l) * 5000 + 0) by (nonlinear_arith)
        requires d * 10000 <= l;
    vstd::arithmetic::div_mod::lemma_div_is_ordered(d * 100000000, (2 * l) * 5000 + 0, 2 * l);
    vstd::arithmetic::div_mod::lemma_div_multiples_vanish_fancy(5000, 0, 2 * l);
}

} // verus!
