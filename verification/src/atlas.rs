//! The texture atlas: an indexable RGB image holding one 64 x 64 texture per
//! wall variant, concatenated left to right in variant order.

use vstd::prelude::*;

verus! {

/// The `bmp` crate's decoded bitmap, held opaquely; its contents are
/// reached only through the named functions below.
#[verifier::external_type_specification]
#[verifier::external_body]
pub struct ExBmpImage(bmp::Image);

/// The dimensions (width, height) a decoded bitmap reports.
pub uninterp spec fn image_dims(img: bmp::Image) -> (nat, nat);

/// The texels a decoded bitmap holds, keyed by (x, y) from the top-left
/// corner, as (red, green, blue) triples.
pub uninterp spec fn image_texels(img: bmp::Image) -> Map<(int, int), (u8, u8, u8)>;

/// What parsing a byte sequence as a bitmap yields: `None` where the bytes
/// are not a well-formed bitmap, otherwise the dimensions and the texels.
/// The result is a function of the bytes alone.
pub uninterp spec fn bmp_decoded(bytes: Seq<u8>) -> Option<((nat, nat), Map<(int, int), (u8, u8, u8)>)>;


/// Little-endian 16-bit value at byte offset `i`.
pub open spec fn le16(b: Seq<u8>, i: int) -> int {
    b[i] + 256 * b[i + 1]
}

/// Little-endian 32-bit value at byte offset `i`.
pub open spec fn le32(b: Seq<u8>, i: int) -> int {
    b[i] + 256 * b[i + 1] + 65536 * b[i + 2] + 16777216 * b[i + 3]
}

/// The byte string opens with the headers of a simple bitmap: the `BM`
/// magic, a version-3 DIB header (size 40), a width and height between 1
/// and 16384, 24 bits per pixel, no compression and no color palette.
/// On such input the decoder takes only its bounds-checked 24-bit pixel
/// path, so it returns normally whatever the rest of the bytes hold.
pub open spec fn simple_bmp_header(b: Seq<u8>) -> bool {
    &&& b.len() >= 54
    &&& b[0] == 66u8
    &&& b[1] == 77u8
    &&& le32(b, 14) == 40
    &&& 1 <= le32(b, 18) <= 16384
    &&& 1 <= le32(b, 22) <= 16384
    &&& le16(b, 28) == 24
    &&& le32(b, 30) == 0
    &&& le32(b, 46) == 0
}

/// Reads the little-endian 32-bit value at `i`.
fn read_le32(b: &Vec<u8>, i: usize) -> (r: u64)
    requires
        i <= 50,
        i + 4 <= b@.len(),
    ensures
        r == le32(b@, i as int),
{
    b[i] as u64 + 256 * (b[i + 1] as u64) + 65536 * (b[i + 2] as u64)
        + 16777216 * (b[i + 3] as u64)
}

/// Tests the simple-bitmap gate, per `simple_bmp_header`.
fn check_simple_bmp_header(b: &Vec<u8>) -> (r: bool)
    ensures
        r == simple_bmp_header(b@),
{
    if b.len() < 54 {
        return false;
    }
    if !(b[0] == 66 && b[1] == 77) {
        return false;
    }
    let hsize: u64 = read_le32(b, 14);
    let w: u64 = read_le32(b, 18);
    let h: u64 = read_le32(b, 22);
    let bpp: u64 = b[28] as u64 + 256 * (b[29] as u64);
    let compress: u64 = read_le32(b, 30);
    let colors: u64 = read_le32(b, 46);
    hsize == 40 && 1 <= w && w <= 16384 && 1 <= h && h <= 16384
        && bpp == 24 && compress == 0 && colors == 0
}

/// Relies on bmp::from_reader: parsing is deterministic in the bytes, and a
/// decoded image carries the parsed dimensions and texels. The requires
/// keeps to inputs that pass the simple-bitmap gate: the decoder then
/// rejects or decodes through its 24-bit uncompressed pixel path alone,
/// whose reads are bounds-checked and whose index arithmetic stays in
/// range, so the call returns normally.
#[verifier::external_body]
fn bmp_from_bytes(bytes: &Vec<u8>) -> (r: Option<bmp::Image>)
    requires
        simple_bmp_header(bytes@),
    ensures
        match r {
            Some(img) => bmp_decoded(bytes@) == Some((image_dims(img), image_texels(img))),
            None => bmp_decoded(bytes@) is None,
        },
{
    bmp::from_reader(&mut bytes.as_slice()).ok()
}

/// Relies on bmp::Image::get_width.
#[verifier::external_body]
fn bmp_width(img: &bmp::Image) -> (r: u32)
    ensures
        r as nat == image_dims(*img).0,
{
    img.get_width()
}

/// Relies on bmp::Image::get_height.
#[verifier::external_body]
fn bmp_height(img: &bmp::Image) -> (r: u32)
    ensures
        r as nat == image_dims(*img).1,
{
    img.get_height()
}

/// Relies on bmp::Image::get_pixel, which reads the stored pixel at
/// `(x, y)`; a decoded image stores one pixel per coordinate, so the read
/// stays in bounds for coordinates inside the dimensions.
#[verifier::external_body]
fn bmp_pixel(img: &bmp::Image, x: u32, y: u32) -> (r: (u8, u8, u8))
    requires
        (x as nat) < image_dims(*img).0,
        (y as nat) < image_dims(*img).1,
        image_dims(*img).0 <= 16384,
        image_dims(*img).1 <= 16384,
    ensures
        r == image_texels(*img)[(x as int, y as int)],
{
    let p = img.get_pixel(x, y);
    (p.r, p.g, p.b)
}

/// Side length of one square wall texture.
pub const TEXTURE_WIDTH: usize = 64;
/// Height of the atlas (textures are square and laid out in one row).
pub const TEXTURE_HEIGHT: usize = 64;

/// An indexable RGB image, row-major, three bytes per texel.
pub struct TextureAtlas {
    pub width: usize,
    pub height: usize,
    pub data: Vec<u8>,
}

impl TextureAtlas {
    /// The texel storage holds exactly three bytes per coordinate and the
    /// dimensions are small enough that every byte offset fits in `usize`.
    pub open spec fn wf(&self) -> bool {
        self.data@.len() == 3 * (self.width as int) * (self.height as int)
        && self.width <= 16384
        && self.height <= 16384
    }

    /// The RGB triple stored at `(x, y)`.
    pub open spec fn texel(&self, x: int, y: int) -> (u8, u8, u8) {
        let off = 3 * (y * (self.width as int) + x);
        (self.data@[off], self.data@[off + 1], self.data@[off + 2])
    }

    /// Wraps row-major RGB bytes as an atlas; rejects storage whose length
    /// does not match the dimensions.
    pub fn new(width: usize, height: usize, data: Vec<u8>) -> (r: Option<TextureAtlas>)
        ensures
            r is Some <==> (width <= 16384 && height <= 16384
                && data@.len() == 3 * (width as int) * (height as int)),
            r is Some ==> (r->Some_0.width == width && r->Some_0.height == height
                && r->Some_0.data@ == data@ && r->Some_0.wf()),
    {
        if width <= 16384 && height <= 16384 {
            proof {
                assert(3 * (width as int) * (height as int) <= 805306368) by (nonlinear_arith)
                    requires width <= 16384, height <= 16384;
            }
            if width == 0 || height == 0 {
                if data.len() == 0 {
                    proof {
                        assert(3 * (width as int) * (height as int) == 0) by (nonlinear_arith)
                            requires width == 0 || height == 0;
                    }
                    Some(TextureAtlas { width, height, data })
                } else {
                    proof {
                        assert(3 * (width as int) * (height as int) == 0) by (nonlinear_arith)
                            requires width == 0 || height == 0;
                    }
                    None
                }
            } else {
                let per_row = 3 * width;
                if data.len() / per_row == height && data.len() % per_row == 0 {
                    proof {
                        vstd::arithmetic::div_mod::lemma_fundamental_div_mod(
                            data@.len() as int, per_row as int);
                        assert((height as int) * (3 * (width as int))
                            == 3 * (width as int) * (height as int)) by (nonlinear_arith);
                    }
                    Some(TextureAtlas { width, height, data })
                } else {
                    proof {
                        if data@.len() == 3 * (width as int) * (height as int) {
                            assert(data@.len() == (height as int) * (per_row as int))
                                by (nonlinear_arith)
                                requires per_row == 3 * (width as int),
                                    data@.len() == 3 * (width as int) * (height as int);
                            vstd::arithmetic::div_mod::lemma_fundamental_div_mod_converse(
                                data@.len() as int, per_row as int, height as int, 0);
                        }
                    }
                    None
                }
            }
        } else {
            None
        }
    }

    /// Decodes BMP bytes into an atlas: `Some` exactly when the bytes open
    /// with the simple-bitmap headers and parse as a bitmap whose
    /// dimensions fit the atlas limits, with every texel carried over.
    pub fn from_bmp_bytes(bytes: &Vec<u8>) -> (r: Option<TextureAtlas>)
        ensures
            match r {
                Some(atlas) => {
                    &&& simple_bmp_header(bytes@)
                    &&& atlas.wf()
                    &&& bmp_decoded(bytes@) is Some
                    &&& atlas.width as nat == bmp_decoded(bytes@)->Some_0.0.0
                    &&& atlas.height as nat == bmp_decoded(bytes@)->Some_0.0.1
                    &&& forall|x: int, y: int|
                        0 <= x < atlas.width && 0 <= y < atlas.height
                        ==> atlas.texel(x, y) == bmp_decoded(bytes@)->Some_0.1[(x, y)]
                },
                None => !simple_bmp_header(bytes@)
                    || bmp_decoded(bytes@) is None
                    || bmp_decoded(bytes@)->Some_0.0.0 > 16384
                    || bmp_decoded(bytes@)->Some_0.0.1 > 16384,
            },
    {
        if !check_simple_bmp_header(bytes) {
            return None;
        }
        let img = match bmp_from_bytes(bytes) {
            Some(img) => img,
            None => {
                return None;
            },
        };
        let w32: u32 = bmp_width(&img);
        let h32: u32 = bmp_height(&img);
        if w32 > 16384 || h32 > 16384 {
            return None;
        }
        let w: usize = w32 as usize;
        let h: usize = h32 as usize;
        let ghost m = image_texels(img);
        proof {
            assert(0 <= 3 * (w as int) * (h as int) <= 805306368) by (nonlinear_arith)
                requires w <= 16384, h <= 16384;
        }
        let mut data: Vec<u8> = Vec::new();
        let mut y: usize = 0;
        while y < h
            invariant
                w <= 16384,
                h <= 16384,
                w as nat == image_dims(img).0,
                h as nat == image_dims(img).1,
                m == image_texels(img),
                0 <= y <= h,
                data@.len() == 3 * ((y as int) * (w as int)),
                forall|qx: int, qy: int| 0 <= qx < w && 0 <= qy < y as int
                    ==> (data@[3 * (qy * (w as int) + qx)],
                        data@[3 * (qy * (w as int) + qx) + 1],
                        data@[3 * (qy * (w as int) + qx) + 2]) == m[(qx, qy)],
            decreases h - y,
        {
            let mut x: usize = 0;
            while x < w
                invariant
                    w <= 16384,
                    h <= 16384,
                    w as nat == image_dims(img).0,
                    h as nat == image_dims(img).1,
                    m == image_texels(img),
                    0 <= y < h,
                    0 <= x <= w,
                    data@.len() == 3 * ((y as int) * (w as int) + x as int),
                    forall|qx: int, qy: int| 0 <= qx < w && 0 <= qy < y as int
                        ==> (data@[3 * (qy * (w as int) + qx)],
                            data@[3 * (qy * (w as int) + qx) + 1],
                            data@[3 * (qy * (w as int) + qx) + 2]) == m[(qx, qy)],
                    forall|qx: int| 0 <= qx < x as int
                        ==> (data@[3 * ((y as int) * (w as int) + qx)],
                            data@[3 * ((y as int) * (w as int) + qx) + 1],
                            data@[3 * ((y as int) * (w as int) + qx) + 2]) == m[(qx, y as int)],
                decreases w - x,
            {
                proof {
                    assert(0 <= (y as int) * (w as int) + x as int
                        && 3 * ((y as int) * (w as int) + x as int) + 3 <= 805306368)
                        by (nonlinear_arith)
                        requires 0 <= (x as int) < w as int, 0 <= (y as int) < h as int,
                            w <= 16384, h <= 16384;
                }
                let texel = bmp_pixel(&img, x as u32, y as u32);
                let (tr, tg, tb) = texel;
                let ghost pre = data@;
                data.push(tr);
                data.push(tg);
                data.push(tb);
                proof {
                    assert forall|qx: int, qy: int| 0 <= qx < w && 0 <= qy < y as int
                        implies (data@[3 * (qy * (w as int) + qx)],
                            data@[3 * (qy * (w as int) + qx) + 1],
                            data@[3 * (qy * (w as int) + qx) + 2]) == m[(qx, qy)] by {
                        assert(0 <= qy * (w as int) + qx
                            && qy * (w as int) + qx + 1 <= (y as int) * (w as int))
                            by (nonlinear_arith)
                            requires 0 <= qx < w as int, 0 <= qy < y as int;
                        assert(data@[3 * (qy * (w as int) + qx)]
                            == pre[3 * (qy * (w as int) + qx)]);
                        assert(data@[3 * (qy * (w as int) + qx) + 1]
                            == pre[3 * (qy * (w as int) + qx) + 1]);
                        assert(data@[3 * (qy * (w as int) + qx) + 2]
                            == pre[3 * (qy * (w as int) + qx) + 2]);
                    };
                    assert forall|qx: int| 0 <= qx < x as int + 1
                        implies (data@[3 * ((y as int) * (w as int) + qx)],
                            data@[3 * ((y as int) * (w as int) + qx) + 1],
                            data@[3 * ((y as int) * (w as int) + qx) + 2])
                            == m[(qx, y as int)] by {
                        if qx < x as int {
                            assert(data@[3 * ((y as int) * (w as int) + qx)]
                                == pre[3 * ((y as int) * (w as int) + qx)]);
                            assert(data@[3 * ((y as int) * (w as int) + qx) + 1]
                                == pre[3 * ((y as int) * (w as int) + qx) + 1]);
                            assert(data@[3 * ((y as int) * (w as int) + qx) + 2]
                                == pre[3 * ((y as int) * (w as int) + qx) + 2]);
                        } else {
                            assert(data@[3 * ((y as int) * (w as int) + qx)] == tr);
                            assert(data@[3 * ((y as int) * (w as int) + qx) + 1] == tg);
                            assert(data@[3 * ((y as int) * (w as int) + qx) + 2] == tb);
                        }
                    };
                }
                x = x + 1;
            }
            proof {
                assert(3 * ((y as int) * (w as int) + w as int)
                    == 3 * (((y as int) + 1) * (w as int))) by (nonlinear_arith);
            }
            y = y + 1;
        }
        proof {
            assert(3 * ((h as int) * (w as int))
                == 3 * (w as int) * (h as int)) by (nonlinear_arith);
        }
        Some(TextureAtlas { width: w, height: h, data })
    }

    /// Reads the RGB triple at `(x, y)`.
    pub fn sample(&self, x: usize, y: usize) -> (r: (u8, u8, u8))
        requires
            self.wf(),
            x < self.width,
            y < self.height,
        ensures
            r == self.texel(x as int, y as int),
    {
        proof {
            assert(0 <= 3 * ((y as int) * (self.width as int) + x as int)
                && 3 * ((y as int) * (self.width as int) + x as int) + 3
                    <= 3 * (self.width as int) * (self.height as int)
                && (y as int) * (self.width as int) + (x as int) <= 268435456) by (nonlinear_arith)
                requires 0 <= (x as int) < self.width as int, 0 <= (y as int) < self.height as int,
                    self.width <= 16384, self.height <= 16384;
        }
        let off: usize = 3 * (y * self.width + x);
        (self.data[off], self.data[off + 1], self.data[off + 2])
    }
}

} // verus!
