//! A raster image of grey, RGB or RGBA pixels, and its TGA file format.
//!
//! Pixels are stored row by row, each as `bytespp` bytes in B, G, R, A
//! order. The file format is an 18-byte header, the pixel bytes (raw or
//! run-length encoded), eight zero bytes and an 18-byte footer.
use vstd::prelude::*;
use crate::base::{le_bytes_u32, le_value, u16_from_le, u16_to_le, u32_to_le};
use vstd::slice::slice_subrange;
use vstd::arithmetic::div_mod::{
    lemma_fundamental_div_mod_converse, lemma_mod_sub_multiples_vanish, lemma_small_mod,
};

verus! {

pub const GRAYSCALE: isize = 1;

pub const RGB: isize = 3;

pub const RGBA: isize = 4;

pub const UNSET: isize = 0;

/// Whether files are written run-length encoded by default.
pub const WRITE_RLE_FILE: bool = true;

/// The fixed 18-byte header of a TGA file.
#[derive(Debug, Clone, Copy, PartialEq, Eq)]
pub struct TGAHeader {
    pub idlength: u8,
    pub colormaptype: u8,
    pub datatypecode: u8,
    pub colormaporigin: u16,
    pub colormaplength: u16,
    pub colormapdepth: u8,
    pub x_origin: u16,
    pub y_origin: u16,
    pub width: u16,
    pub height: u16,
    pub bitsperpixel: u8,
    pub imagedescriptor: u8,
}

impl TGAHeader {
    /// A header with every field zero.
    pub fn new() -> (r: TGAHeader)
        ensures
            r == TGAHeader::zeroed(),
    {
        TGAHeader {
            idlength: 0,
            colormaptype: 0,
            datatypecode: 0,
            colormaporigin: 0,
            colormaplength: 0,
            colormapdepth: 0,
            x_origin: 0,
            y_origin: 0,
            width: 0,
            height: 0,
            bitsperpixel: 0,
            imagedescriptor: 0,
        }
    }

    pub open spec fn zeroed() -> TGAHeader {
        TGAHeader {
            idlength: 0,
            colormaptype: 0,
            datatypecode: 0,
            colormaporigin: 0,
            colormaplength: 0,
            colormapdepth: 0,
            x_origin: 0,
            y_origin: 0,
            width: 0,
            height: 0,
            bitsperpixel: 0,
            imagedescriptor: 0,
        }
    }
}

/// A pixel color with the number of its meaningful bytes.
#[derive(Debug, Clone, Copy)]
pub struct TGAColor {
    pub bytespp: u32,
    pub r: u8,
    pub g: u8,
    pub b: u8,
    pub a: u8,
}

/// Red, green, blue and alpha channel values.
pub struct RGBAColor(pub u8, pub u8, pub u8, pub u8);

/// The value of a buffer of one to four bytes, most significant first.
pub fn u32_from_be(buf: &[u8]) -> (r: u32)
    requires
        1 <= buf@.len() <= 4,
    ensures
        r == crate::base::be_value(buf@),
{
    proof {
        reveal_with_fuel(crate::base::be_value, 5);
        let s = buf@;
        if s.len() >= 2 {
            assert(s.drop_last().drop_last() =~= s.subrange(0, s.len() - 2));
        }
        if s.len() >= 3 {
            assert(s.drop_last().drop_last().drop_last() =~= s.subrange(0, s.len() - 3));
        }
        if s.len() >= 4 {
            assert(s.drop_last().drop_last().drop_last().drop_last() =~= s.subrange(0, 0));
        }
    }
    if buf.len() == 4 {
        buf[0] as u32 * 0x100_0000 + buf[1] as u32 * 0x1_0000 + buf[2] as u32 * 0x100 + buf[3] as u32
    } else if buf.len() == 3 {
        buf[0] as u32 * 0x1_0000 + buf[1] as u32 * 0x100 + buf[2] as u32
    } else if buf.len() == 2 {
        buf[0] as u32 * 0x100 + buf[1] as u32
    } else {
        buf[0] as u32
    }
}

/// The value of a buffer of one to four bytes, least significant first.
pub fn u32_from_le(buf: &[u8]) -> (r: u32)
    requires
        1 <= buf@.len() <= 4,
    ensures
        r == le_value(buf@),
{
    crate::base::u32_from_le(buf)
}

impl TGAColor {
    /// The four channels in memory order: blue, green, red, alpha.
    pub open spec fn bgra(&self) -> Seq<u8> {
        seq![self.b, self.g, self.r, self.a]
    }

    /// A color with every channel and the byte count zero.
    pub fn new() -> (r: TGAColor)
        ensures
            r.bgra() == seq![0u8, 0u8, 0u8, 0u8],
            r.bytespp == 0,
    {
        TGAColor { r: 0, g: 0, b: 0, a: 0, bytespp: 0 }
    }

    /// A four-byte color.
    pub fn with_color(rgba: RGBAColor) -> (r: TGAColor)
        ensures
            r.r == rgba.0,
            r.g == rgba.1,
            r.b == rgba.2,
            r.a == rgba.3,
            r.bytespp == 4,
    {
        TGAColor { bytespp: RGBA as u32, b: rgba.2, g: rgba.1, r: rgba.0, a: rgba.3 }
    }

    /// The channels in memory order.
    pub fn raw(&self) -> (r: [u8; 4])
        ensures
            r@ == self.bgra(),
    {
        let r = [self.b, self.g, self.r, self.a];
        assert(r@ =~= self.bgra());
        r
    }

    /// Channel `index` (0 is blue, 1 green, 2 red, 3 alpha).
    pub fn channel(&self, index: usize) -> (r: u8)
        requires
            index < 4,
        ensures
            r == self.bgra()[index as int],
    {
        match index {
            0 => self.b,
            1 => self.g,
            2 => self.r,
            _ => self.a,
        }
    }

    /// Replaces channel `index` (0 is blue, 1 green, 2 red, 3 alpha).
    pub fn set_channel(&mut self, index: usize, v: u8)
        requires
            index < 4,
        ensures
            final(self).bgra() == old(self).bgra().update(index as int, v),
            final(self).bytespp == old(self).bytespp,
    {
        match index {
            0 => self.b = v,
            1 => self.g = v,
            2 => self.r = v,
            _ => self.a = v,
        }
        assert(self.bgra() =~= old(self).bgra().update(index as int, v));
    }

    /// Takes the first `bytespp` channels from `bgra`; more than four is
    /// refused and leaves the color as it is.
    pub fn set(&mut self, bgra: &[u8], bytespp: usize) -> (r: Option<()>)
        requires
            bytespp > 4 || bgra@.len() >= bytespp,
        ensures
            bytespp > 4 ==> r is None && *final(self) == *old(self),
            bytespp <= 4 ==> r is Some && final(self).bgra() == bgra@.subrange(0, bytespp as int)
                + old(self).bgra().subrange(bytespp as int, 4) && final(self).bytespp == bytespp,
    {
        if bytespp > 4 {
            None
        } else {
            let mut i: usize = 0;
            while i < bytespp
                invariant
                    i <= bytespp <= 4,
                    bgra@.len() >= bytespp,
                    self.bgra() == bgra@.subrange(0, i as int) + old(self).bgra().subrange(
                        i as int,
                        4,
                    ),
                decreases bytespp - i,
            {
                self.set_channel(i, bgra[i]);
                i = i + 1;
                assert(self.bgra() =~= bgra@.subrange(0, i as int) + old(self).bgra().subrange(
                    i as int,
                    4,
                ));
            }
            self.bytespp = bytespp as u32;
            Some(())
        }
    }

    pub fn red(&self) -> (r: u8)
        ensures
            r == self.r,
    {
        self.r
    }

    pub fn green(&self) -> (r: u8)
        ensures
            r == self.g,
    {
        self.g
    }

    pub fn blue(&self) -> (r: u8)
        ensures
            r == self.b,
    {
        self.b
    }

    pub fn alpha(&self) -> (r: u8)
        ensures
            r == self.a,
    {
        self.a
    }

    pub fn set_red(&mut self, r: u8)
        ensures
            *final(self) == (TGAColor { r, ..*old(self) }),
    {
        self.r = r;
    }

    pub fn set_green(&mut self, g: u8)
        ensures
            *final(self) == (TGAColor { g, ..*old(self) }),
    {
        self.g = g;
    }

    pub fn set_blue(&mut self, b: u8)
        ensures
            *final(self) == (TGAColor { b, ..*old(self) }),
    {
        self.b = b;
    }

    pub fn set_alpha(&mut self, alpha: u8)
        ensures
            *final(self) == (TGAColor { a: alpha, ..*old(self) }),
    {
        self.a = alpha;
    }

    /// The four channels read as one value, blue in the low byte.
    pub fn val(&self) -> (r: u32)
        ensures
            r == le_value(self.bgra()),
    {
        let raw = self.raw();
        crate::base::u32_from_le(&raw)
    }

    /// The color whose four channels are the bytes of `val`, low byte first.
    pub fn from_val(val: u32) -> (r: TGAColor)
        ensures
            r.bgra() == le_bytes_u32(val),
            r.bytespp == 4,
    {
        let mut ret = TGAColor::new();
        ret.set_val(val, 4);
        assert(ret.bgra() =~= le_bytes_u32(val));
        ret
    }

    /// A one-byte grey color (held in the blue channel).
    pub fn grayscale(val: u8) -> (r: TGAColor)
        ensures
            r.bgra() == seq![val, 0u8, 0u8, 0u8],
            r.bytespp == 1,
    {
        TGAColor { r: 0, g: 0, b: val, a: 0, bytespp: 1 }
    }

    /// Takes the first `bytespp` channels from the bytes of `val`, low
    /// byte first.
    pub fn set_val(&mut self, val: u32, bytespp: usize)
        requires
            bytespp == 1 || bytespp == 3 || bytespp == 4,
        ensures
            final(self).bgra() == le_bytes_u32(val).subrange(0, bytespp as int) + old(
                self,
            ).bgra().subrange(bytespp as int, 4),
            final(self).bytespp == bytespp,
    {
        let raw = u32_to_le(val);
        let _ = self.set(&raw, bytespp);
    }
}


/// What an image holds: its pixel bytes, its size in pixels and the number
/// of bytes per pixel.
pub struct ImageModel {
    pub data: Seq<u8>,
    pub width: int,
    pub height: int,
    pub bytespp: int,
}

impl ImageModel {
    /// The number of bytes of a full pixel buffer.
    pub open spec fn nbytes(&self) -> int {
        self.width * self.height * self.bytespp
    }

    /// Sizes are non-negative, a pixel has 1, 3 or 4 bytes (0 only for an
    /// image without pixels), and the buffer is either empty or full.
    pub open spec fn wf(&self) -> bool {
        &&& 0 <= self.width <= i32::MAX
        &&& 0 <= self.height <= i32::MAX
        &&& (self.bytespp == 1 || self.bytespp == 3 || self.bytespp == 4 || (self.bytespp == 0
            && self.width == 0 && self.height == 0))
        &&& (self.data.len() == 0 || self.data.len() == self.nbytes())
        &&& self.nbytes() <= usize::MAX
    }

    /// Whether (x, y) names a stored pixel.
    pub open spec fn has_pixel(&self, x: int, y: int) -> bool {
        self.data.len() > 0 && 0 <= x < self.width && 0 <= y < self.height
    }

    /// The index of the first byte of pixel (x, y).
    pub open spec fn offset(&self, x: int, y: int) -> int {
        (x + y * self.width) * self.bytespp
    }

    /// Whether (x, y) is a pixel and t one of its bytes.
    pub open spec fn in_range(&self, x: int, y: int, t: int) -> bool {
        0 <= x < self.width && 0 <= y < self.height && 0 <= t < self.bytespp
    }

    /// Byte t of pixel (x, y).
    pub open spec fn byte(&self, x: int, y: int, t: int) -> u8 {
        self.data[self.offset(x, y) + t]
    }

    /// The bytes of pixel (x, y).
    pub open spec fn pixel(&self, x: int, y: int) -> Seq<u8> {
        self.data.subrange(self.offset(x, y), self.offset(x, y) + self.bytespp)
    }
}

/// A raster image.
#[derive(Debug, Clone)]
pub struct TGAImage {
    data: Vec<u8>,
    width: i32,
    height: i32,
    bytespp: i32,
}

impl View for TGAImage {
    type V = ImageModel;

    closed spec fn view(&self) -> ImageModel {
        ImageModel {
            data: self.data@,
            width: self.width as int,
            height: self.height as int,
            bytespp: self.bytespp as int,
        }
    }
}

/// A pixel of a well-formed image lies inside its buffer.
pub proof fn lemma_pixel_in_buffer(m: ImageModel, x: int, y: int)
    requires
        m.wf(),
        m.has_pixel(x, y),
    ensures
        0 <= m.offset(x, y),
        m.offset(x, y) + m.bytespp <= m.data.len(),
        m.bytespp >= 1,
        0 <= y * m.width,
        x + y * m.width <= m.offset(x, y),
{
    let w = m.width;
    let h = m.height;
    let b = m.bytespp;
    assert(0 <= x + y * w) by (nonlinear_arith)
        requires
            0 <= x,
            0 <= y,
            0 <= w,
    ;
    assert(x + y * w + 1 <= w * h) by (nonlinear_arith)
        requires
            0 <= x < w,
            0 <= y < h,
    ;
    assert(0 <= (x + y * w) * b) by (nonlinear_arith)
        requires
            0 <= x + y * w,
            0 <= b,
    ;
    assert(0 <= y * w) by (nonlinear_arith)
        requires
            0 <= y,
            0 <= w,
    ;
    assert(x + y * w <= (x + y * w) * b) by (nonlinear_arith)
        requires
            0 <= x + y * w,
            1 <= b,
    ;
    assert((x + y * w) * b + b <= w * h * b) by (nonlinear_arith)
        requires
            x + y * w + 1 <= w * h,
            0 <= b,
    ;
}

/// Relies on `num::cast`: converting an `i32` to `usize` succeeds exactly
/// when the value is not negative, and keeps the value.
#[verifier::external_body]
fn to_index(v: i32) -> (r: Option<usize>)
    ensures
        v >= 0 ==> r == Some(v as usize),
        v < 0 ==> r is None,
{
    num::cast::<i32, usize>(v)
}

impl TGAImage {
    pub open spec fn wf(&self) -> bool {
        self@.wf()
    }

    /// An image without pixels.
    pub fn new() -> (r: TGAImage)
        ensures
            r@.data.len() == 0,
            r@.width == 0,
            r@.height == 0,
            r@.bytespp == 0,
            r.wf(),
    {
        TGAImage { data: vec![], width: 0, height: 0, bytespp: 0 }
    }

    /// A black image of `w` by `h` pixels of `bpp` bytes each.
    pub fn with_info(w: isize, h: isize, bpp: isize) -> (r: TGAImage)
        requires
            0 <= w <= i32::MAX,
            0 <= h <= i32::MAX,
            bpp == GRAYSCALE || bpp == RGB || bpp == RGBA,
            w * h * bpp <= usize::MAX,
        ensures
            r@.data == Seq::new((w * h * bpp) as nat, |i: int| 0u8),
            r@.width == w,
            r@.height == h,
            r@.bytespp == bpp,
            r.wf(),
    {
        assert(0 <= w * h * bpp) by (nonlinear_arith)
            requires
                0 <= w,
                0 <= h,
                0 <= bpp,
        ;
        assert(0 <= w * h <= w * h * bpp) by (nonlinear_arith)
            requires
                0 <= w,
                0 <= h,
                1 <= bpp,
        ;
        let n: usize = (w as usize * h as usize) * bpp as usize;
        let data = vec![0u8; n];
        let r = TGAImage { data, width: w as i32, height: h as i32, bytespp: bpp as i32 };
        assert(r@.data =~= Seq::new((w * h * bpp) as nat, |i: int| 0u8));
        r
    }

    /// The color of pixel (x, y): its bytes in the first channels and the
    /// byte count of the image; the zero color where there is no such pixel.
    pub fn get(&self, x: i32, y: i32) -> (r: TGAColor)
        requires
            self.wf(),
        ensures
            !self@.has_pixel(x as int, y as int) ==> r.bgra() == seq![0u8, 0u8, 0u8, 0u8]
                && r.bytespp == 0,
            self@.has_pixel(x as int, y as int) ==> r.bgra() == self@.pixel(x as int, y as int)
                + seq![0u8, 0u8, 0u8, 0u8].subrange(self@.bytespp, 4) && r.bytespp
                == self@.bytespp,
    {
        let mut ret = TGAColor::new();
        let (xi, yi) = match (to_index(x), to_index(y)) {
            (Some(xi), Some(yi)) => (xi, yi),
            _ => {
                return ret;
            },
        };
        if self.data.len() == 0 || xi >= self.width as usize || yi >= self.height as usize {
            return ret;
        }
        proof {
            lemma_pixel_in_buffer(self@, x as int, y as int);
        }
        let bpp = self.bytespp as usize;
        let row: usize = yi * self.width as usize;
        let idx: usize = xi + row;
        let off: usize = idx * bpp;
        let _ = ret.set(&self.data.as_slice()[off..off + bpp], bpp);
        ret
    }

    /// Writes the first bytes of `color` into pixel (x, y) and answers
    /// true; where there is no such pixel, changes nothing and answers false.
    pub fn set(&mut self, x: i32, y: i32, color: TGAColor) -> (r: bool)
        requires
            old(self).wf(),
        ensures
            r == old(self)@.has_pixel(x as int, y as int),
            final(self).wf(),
            final(self)@.width == old(self)@.width,
            final(self)@.height == old(self)@.height,
            final(self)@.bytespp == old(self)@.bytespp,
            !r ==> final(self)@.data == old(self)@.data,
            r ==> final(self)@.data == old(self)@.data.subrange(0, old(self)@.offset(x as int, y as int))
                + color.bgra().subrange(0, old(self)@.bytespp) + old(self)@.data.subrange(
                old(self)@.offset(x as int, y as int) + old(self)@.bytespp,
                old(self)@.data.len() as int,
            ),
    {
        let (xi, yi) = match (to_index(x), to_index(y)) {
            (Some(xi), Some(yi)) => (xi, yi),
            _ => {
                return false;
            },
        };
        if self.data.len() == 0 || xi >= self.width as usize || yi >= self.height as usize {
            return false;
        }
        proof {
            lemma_pixel_in_buffer(self@, x as int, y as int);
        }
        let bpp = self.bytespp as usize;
        let row: usize = yi * self.width as usize;
        let idx: usize = xi + row;
        let off: usize = idx * bpp;
        let raw = color.raw();
        let ghost len = self.data@.len();
        let mut t: usize = 0;
        while t < bpp
            invariant
                t <= bpp <= 4,
                bpp == old(self)@.bytespp,
                off + bpp <= len <= usize::MAX,
                len == old(self)@.data.len(),
                self.data@.len() == len,
                self.width == old(self).width,
                self.height == old(self).height,
                self.bytespp == old(self).bytespp,
                raw@ == color.bgra(),
                self.data@ == old(self)@.data.subrange(0, off as int) + raw@.subrange(0, t as int)
                    + old(self)@.data.subrange(off + t, len as int),
            decreases bpp - t,
        {
            self.data.set(off + t, raw[t]);
            t = t + 1;
            assert(self.data@ =~= old(self)@.data.subrange(0, off as int) + raw@.subrange(
                0,
                t as int,
            ) + old(self)@.data.subrange(off + t, len as int));
        }
        true
    }

    pub fn get_width(&self) -> (r: i32)
        ensures
            r == self@.width,
    {
        self.width
    }

    pub fn get_height(&self) -> (r: i32)
        ensures
            r == self@.height,
    {
        self.height
    }

    pub fn get_bytespp(&self) -> (r: i32)
        ensures
            r == self@.bytespp,
    {
        self.bytespp
    }

    /// The pixel bytes, row by row.
    pub fn buffer(&self) -> (r: &Vec<u8>)
        ensures
            r@ == self@.data,
    {
        &self.data
    }

    /// Drops the pixel bytes, keeping the size, and answers how many there were.
    pub fn clear(&mut self) -> (r: Option<usize>)
        requires
            old(self).wf(),
        ensures
            r == Some(old(self)@.data.len() as usize),
            final(self)@.data.len() == 0,
            final(self)@.width == old(self)@.width,
            final(self)@.height == old(self)@.height,
            final(self)@.bytespp == old(self)@.bytespp,
            final(self).wf(),
    {
        let ret = self.data.len();
        self.data = vec![];
        Some(ret)
    }
}


/// `n` copies of the pixel `p`.
pub open spec fn repeat_pixel(p: Seq<u8>, n: nat) -> Seq<u8> {
    Seq::new(n * p.len(), |i: int| p[i % p.len() as int])
}

/// Decodes run-length packets from the front of `b` until `left` pixels of
/// `bpp` bytes each have come out. A packet starts with a control byte `h`:
/// below 128 it is followed by `h + 1` raw pixels; from 128 on it is
/// followed by one pixel that stands for `h - 127` equal pixels.
///
/// The result is the pixel bytes and the number of bytes read, or `None`
/// where `b` ends early or a packet holds more pixels than are left.
pub open spec fn rle_decode(b: Seq<u8>, bpp: nat, left: nat) -> Option<(Seq<u8>, nat)>
    decreases left,
{
    if left == 0 {
        Some((Seq::empty(), 0))
    } else if b.len() == 0 {
        None
    } else {
        let h = b[0];
        let n: nat = if h < 128 {
            (h + 1) as nat
        } else {
            (h - 127) as nat
        };
        let size: nat = if h < 128 {
            n * bpp
        } else {
            bpp
        };
        if n > left || 1 + size > b.len() {
            None
        } else {
            let body = b.subrange(1, 1 + size as int);
            let px = if h < 128 {
                body
            } else {
                repeat_pixel(body, n)
            };
            match rle_decode(b.subrange(1 + size as int, b.len() as int), bpp, (left - n) as nat) {
                Some((rest, used)) => Some((px + rest, 1 + size + used)),
                None => None,
            }
        }
    }
}

/// The pixel bytes of a successful decode.
pub open spec fn rle_pixels(b: Seq<u8>, bpp: nat, left: nat) -> Seq<u8> {
    match rle_decode(b, bpp, left) {
        Some((d, _)) => d,
        None => Seq::empty(),
    }
}

/// The number of bytes that a successful decode reads.
pub open spec fn rle_used(b: Seq<u8>, bpp: nat, left: nat) -> nat {
    match rle_decode(b, bpp, left) {
        Some((_, u)) => u,
        None => 0,
    }
}

/// A successful decode yields `left` pixels and reads no more than is there.
pub proof fn lemma_rle_decode_len(b: Seq<u8>, bpp: nat, left: nat)
    requires
        rle_decode(b, bpp, left) is Some,
    ensures
        rle_pixels(b, bpp, left).len() == left * bpp,
        rle_used(b, bpp, left) <= b.len(),
    decreases left,
{
    if left > 0 {
        let h = b[0];
        let n: nat = if h < 128 {
            (h + 1) as nat
        } else {
            (h - 127) as nat
        };
        let size: nat = if h < 128 {
            n * bpp
        } else {
            bpp
        };
        lemma_rle_decode_len(b.subrange(1 + size as int, b.len() as int), bpp, (left - n) as nat);
        assert(n * bpp + (left - n) * bpp == left * bpp) by (nonlinear_arith)
            requires
                n <= left,
        ;
    }
}

/// Decoding a stream that is one complete encoding followed by another
/// gives the two pixel runs one after the other.
pub proof fn lemma_rle_concat(a: Seq<u8>, c: Seq<u8>, bpp: nat, k: nat, m: nat)
    requires
        rle_decode(a, bpp, k) is Some,
        rle_used(a, bpp, k) == a.len(),
    ensures
        rle_decode(a + c, bpp, k + m) == match rle_decode(c, bpp, m) {
            Some((dc, uc)) => Some((rle_pixels(a, bpp, k) + dc, a.len() + uc)),
            None => None::<(Seq<u8>, nat)>,
        },
    decreases k,
{
    if k == 0 {
        assert(a =~= Seq::<u8>::empty());
        assert(a + c =~= c);
        match rle_decode(c, bpp, m) {
            Some((dc, uc)) => {
                assert(Seq::<u8>::empty() + dc =~= dc);
            },
            None => {},
        }
    } else {
        let h = a[0];
        let n: nat = if h < 128 {
            (h + 1) as nat
        } else {
            (h - 127) as nat
        };
        let size: nat = if h < 128 {
            n * bpp
        } else {
            bpp
        };
        let ac = a + c;
        assert(ac[0] == h);
        let a2 = a.subrange(1 + size as int, a.len() as int);
        assert(ac.subrange(1, 1 + size as int) =~= a.subrange(1, 1 + size as int));
        assert(ac.subrange(1 + size as int, ac.len() as int) =~= a2 + c);
        lemma_rle_concat(a2, c, bpp, (k - n) as nat, m);
        assert((k + m - n) as nat == (k - n) as nat + m);
        match rle_decode(c, bpp, m) {
            Some((dc, uc)) => {
                let px = if h < 128 {
                    a.subrange(1, 1 + size as int)
                } else {
                    repeat_pixel(a.subrange(1, 1 + size as int), n)
                };
                let da2 = rle_pixels(a2, bpp, (k - n) as nat);
                assert(px + (da2 + dc) =~= (px + da2) + dc);
            },
            None => {},
        }
    }
}

/// A raw packet of `n` pixels decodes to its bytes.
proof fn lemma_rle_raw_packet(p: Seq<u8>, body: Seq<u8>, bpp: nat, n: nat)
    requires
        1 <= n <= 128,
        body.len() == n * bpp,
        p == seq![(n - 1) as u8] + body,
    ensures
        rle_decode(p, bpp, n) == Some((body, p.len())),
{
    reveal_with_fuel(rle_decode, 2);
    assert(p.subrange(1, 1 + (n * bpp) as int) =~= body);
    assert(p.subrange(1 + (n * bpp) as int, p.len() as int) =~= Seq::<u8>::empty());
    assert(body + Seq::<u8>::empty() =~= body);
}

/// A run packet of `n` copies of one pixel decodes to those copies.
proof fn lemma_rle_run_packet(p: Seq<u8>, px: Seq<u8>, bpp: nat, n: nat)
    requires
        1 <= n <= 128,
        px.len() == bpp,
        p == seq![(n + 127) as u8] + px,
    ensures
        rle_decode(p, bpp, n) == Some((repeat_pixel(px, n), p.len())),
{
    reveal_with_fuel(rle_decode, 2);
    assert(p.subrange(1, 1 + bpp as int) =~= px);
    assert(p.subrange(1 + bpp as int, p.len() as int) =~= Seq::<u8>::empty());
    assert(repeat_pixel(px, n) + Seq::<u8>::empty() =~= repeat_pixel(px, n));
}


/// Appends `src[from..to]` to `out`.
fn push_range(out: &mut Vec<u8>, src: &[u8], from: usize, to: usize)
    requires
        from <= to <= src@.len(),
    ensures
        final(out)@ == old(out)@ + src@.subrange(from as int, to as int),
{
    let mut j = from;
    while j < to
        invariant
            from <= j <= to <= src@.len(),
            out@ == old(out)@ + src@.subrange(from as int, j as int),
        decreases to - j,
    {
        out.push(src[j]);
        j = j + 1;
        assert(out@ =~= old(out)@ + src@.subrange(from as int, j as int));
    }
}

/// Whether the `n` bytes at `a` equal the `n` bytes at `b`.
fn bytes_equal(data: &[u8], a: usize, b: usize, n: usize) -> (r: bool)
    requires
        a + n <= data@.len() <= usize::MAX,
        b + n <= data@.len(),
    ensures
        r == (data@.subrange(a as int, a + n) == data@.subrange(b as int, b + n)),
{
    let mut i: usize = 0;
    while i < n
        invariant
            i <= n,
            a + n <= data@.len() <= usize::MAX,
            b + n <= data@.len(),
            forall|k: int| 0 <= k < i ==> #[trigger] data@[a + k] == data@[b + k],
        decreases n - i,
    {
        if data[a + i] != data[b + i] {
            assert(data@.subrange(a as int, a + n)[i as int] != data@.subrange(b as int, b + n)[i as int]);
            return false;
        }
        i = i + 1;
    }
    let ghost sa = data@.subrange(a as int, a + n);
    let ghost sb = data@.subrange(b as int, b + n);
    assert forall|k: int| 0 <= k < n implies #[trigger] sa[k] == sb[k] by {
        assert(data@[a + k] == data@[b + k]);
    }
    assert(sa =~= sb);
    true
}

proof fn lemma_mul_le(a: int, b: int, c: int)
    requires
        0 <= a <= b,
        0 <= c,
    ensures
        0 <= a * c <= b * c,
{
    assert(0 <= a * c <= b * c) by (nonlinear_arith)
        requires
            0 <= a <= b,
            0 <= c,
    ;
}

proof fn lemma_mul_add(a: int, b: int, c: int)
    ensures
        (a + b) * c == a * c + b * c,
        (a - b) * c == a * c - b * c,
{
    assert((a + b) * c == a * c + b * c) by (nonlinear_arith);
    assert((a - b) * c == a * c - b * c) by (nonlinear_arith);
}

impl TGAImage {
    /// Replaces the pixels by the `width * height` pixels that the
    /// run-length packets at the front of `src` encode, and answers that
    /// count. Where `src` does not encode them (see `rle_decode`), answers
    /// `None` and changes nothing.
    #[verifier::rlimit(40)]
    pub fn load_rle_data(&mut self, src: &[u8]) -> (r: Option<usize>)
        requires
            old(self).wf(),
            old(self)@.nbytes() <= usize::MAX,
        ensures
            final(self).wf(),
            final(self)@.width == old(self)@.width,
            final(self)@.height == old(self)@.height,
            final(self)@.bytespp == old(self)@.bytespp,
            rle_decode(src@, old(self)@.bytespp as nat, (old(self)@.width * old(self)@.height) as nat)
                is Some ==> r == Some((old(self)@.width * old(self)@.height) as usize)
                && final(self)@.data == rle_pixels(
                src@,
                old(self)@.bytespp as nat,
                (old(self)@.width * old(self)@.height) as nat,
            ),
            rle_decode(src@, old(self)@.bytespp as nat, (old(self)@.width * old(self)@.height) as nat)
                is None ==> r is None && final(self)@.data == old(self)@.data,
    {
        let bpp = self.bytespp as usize;
        proof {
            lemma_mul_le(0, self.width as int, self.height as int);
            if bpp >= 1 {
                lemma_mul_le(1, bpp as int, self.width * self.height);
            }
        }
        let total: usize = self.width as usize * self.height as usize;
        let ghost whole = rle_decode(src@, bpp as nat, total as nat);
        let len = src.len();
        let mut out: Vec<u8> = Vec::new();
        let mut cur: usize = 0;
        let mut pos: usize = 0;
        assert(src@.subrange(0, len as int) =~= src@);
        assert(out@ + rle_pixels(src@, bpp as nat, total as nat) =~= rle_pixels(src@, bpp as nat, total as nat));
        while cur < total
            invariant
                self@ == old(self)@,
                self.wf(),
                cur <= total,
                pos <= len,
                len == src@.len(),
                bpp == self@.bytespp,
                bpp <= 4,
                total > 0 ==> bpp >= 1,
                total == self@.width * self@.height,
                total * bpp <= usize::MAX,
                out@.len() == cur * bpp,
                whole == rle_decode(src@, bpp as nat, total as nat),
                whole == match rle_decode(
                    src@.subrange(pos as int, len as int),
                    bpp as nat,
                    (total - cur) as nat,
                ) {
                    Some((rest, used)) => Some((out@ + rest, (pos + used) as nat)),
                    None => None::<(Seq<u8>, nat)>,
                },
            decreases total - cur,
        {
            let ghost b = src@.subrange(pos as int, len as int);
            let ghost left = (total - cur) as nat;
            if pos >= len {
                assert(b.len() == 0);
                return None;
            }
            let h = src[pos];
            assert(b[0] == h);
            let ghost out0 = out@;
            let n: usize;
            let size: usize;
            if h < 128 {
                n = h as usize + 1;
                if n > total - cur {
                    return None;
                }
                proof {
                    lemma_mul_le(n as int, 128, bpp as int);
                }
                size = n * bpp;
                if size >= len - pos {
                    return None;
                }
                push_range(&mut out, src, pos + 1, pos + 1 + size);
                assert(b.subrange(1, 1 + size as int) =~= src@.subrange(pos + 1, pos + 1 + size));
            } else {
                n = h as usize - 127;
                if n > total - cur {
                    return None;
                }
                size = bpp;
                if size >= len - pos {
                    return None;
                }
                let start = pos + 1;
                let mut j: usize = 0;
                proof {
                    lemma_mul_le(n as int, 128, bpp as int);
                }
                while j < n * bpp
                    invariant
                        j <= n * bpp <= 512,
                        1 <= bpp <= 4,
                        start + bpp <= len,
                        len == src@.len(),
                        out@ == out0 + Seq::new(j as nat, |i: int| src@[start + i % (bpp as int)]),
                    decreases n * bpp - j,
                {
                    out.push(src[start + j % bpp]);
                    j = j + 1;
                    assert(out@ =~= out0 + Seq::new(j as nat, |i: int| src@[start + i % (bpp as int)]));
                }
                let ghost body = b.subrange(1, 1 + bpp as int);
                assert(body =~= src@.subrange(start as int, start + bpp));
                assert(Seq::new((n * bpp) as nat, |i: int| src@[start + i % (bpp as int)]) =~= repeat_pixel(body, n as nat));
            }
            proof {
                let b2 = b.subrange(1 + size as int, b.len() as int);
                assert(b2 =~= src@.subrange(pos + 1 + size, len as int));
                let px = if h < 128 {
                    b.subrange(1, 1 + size as int)
                } else {
                    repeat_pixel(b.subrange(1, 1 + size as int), n as nat)
                };
                assert(out@ == out0 + px);
                match rle_decode(b2, bpp as nat, (left - n) as nat) {
                    Some((rest, used)) => {
                        assert(out0 + (px + rest) =~= out@ + rest);
                    },
                    None => {},
                }
                lemma_mul_add(cur as int, n as int, bpp as int);
            }
            pos = pos + 1 + size;
            cur = cur + n;
        }
        proof {
            assert(out@ + Seq::<u8>::empty() =~= out@);
        }
        self.data = out;
        Some(total)
    }
}


/// Extends a run by one pixel that equals the last pixel of the run.
proof fn lemma_run_extend(data: Seq<u8>, cs: int, bpp: int, l: int)
    requires
        1 <= bpp,
        1 <= l,
        0 <= cs,
        cs + (l + 1) * bpp <= data.len(),
        l == 1 || data.subrange(cs, cs + l * bpp) == repeat_pixel(data.subrange(cs, cs + bpp), l as nat),
        data.subrange(cs + (l - 1) * bpp, cs + l * bpp) == data.subrange(cs + l * bpp, cs + (l + 1) * bpp),
    ensures
        data.subrange(cs, cs + (l + 1) * bpp) == repeat_pixel(data.subrange(cs, cs + bpp), (l + 1) as nat),
{
    let p = data.subrange(cs, cs + bpp);
    let whole = data.subrange(cs, cs + (l + 1) * bpp);
    let rep = repeat_pixel(p, (l + 1) as nat);
    lemma_mul_add(l, 1, bpp);
    lemma_mul_add(l, -1, bpp);
    lemma_mul_le(1, l, bpp);
    assert(rep.len() == (l + 1) * bpp);
    assert forall|i: int| 0 <= i < (l + 1) * bpp implies #[trigger] whole[i] == rep[i] by {
        assert(whole[i] == data[cs + i]);
        assert(rep[i] == p[i % bpp]);
        if i < l * bpp {
            if l == 1 {
                lemma_small_mod(i as nat, bpp as nat);
                assert(p[i] == data[cs + i]);
            } else {
                let prev = repeat_pixel(p, l as nat);
                assert(data.subrange(cs, cs + l * bpp)[i] == prev[i]);
            }
        } else {
            let k = i - l * bpp;
            assert(0 <= k < bpp);
            assert(data.subrange(cs + (l - 1) * bpp, cs + l * bpp)[k] == data.subrange(
                cs + l * bpp,
                cs + (l + 1) * bpp,
            )[k]);
            assert((l - 1) * bpp == l * bpp - bpp);
            assert(data.subrange(cs + (l - 1) * bpp, cs + l * bpp)[k] == data[cs + i - bpp]);
            assert(data.subrange(cs + l * bpp, cs + (l + 1) * bpp)[k] == data[cs + i]);
            lemma_mod_sub_multiples_vanish(i, bpp);
            assert((i - bpp) % bpp == i % bpp);
            if l == 1 {
                lemma_small_mod((i - bpp) as nat, bpp as nat);
                assert(p[i - bpp] == data[cs + i - bpp]);
            } else {
                let prev = repeat_pixel(p, l as nat);
                assert(data.subrange(cs, cs + l * bpp)[i - bpp] == prev[i - bpp]);
                assert(prev[i - bpp] == p[(i - bpp) % bpp]);
            }
        }
    }
    assert(data.subrange(cs, cs + (l + 1) * bpp) =~= repeat_pixel(p, (l + 1) as nat));
}

/// Whether pixels `p` and `q` of `d` (`bpp` bytes each) are equal.
pub open spec fn same_pixel(d: Seq<u8>, bpp: nat, p: int, q: int) -> bool {
    d.subrange((p * bpp) as int, (p * bpp + bpp) as int) == d.subrange((q * bpp) as int, (q * bpp + bpp) as int)
}

/// The length of the run of equal pixels from pixel `cur` of an image of
/// `n` pixels, `l` of them known equal: it grows while the next pixel equals
/// the last one, up to 128 pixels.
pub open spec fn scan_run(d: Seq<u8>, bpp: nat, n: nat, cur: nat, l: nat) -> nat
    decreases 128 - l,
{
    if cur + l < n && l < 128 && same_pixel(d, bpp, cur + l - 1, (cur + l) as int) {
        scan_run(d, bpp, n, cur, l + 1)
    } else {
        l
    }
}

/// The length of the raw packet from pixel `cur`, `l` pixels taken: it grows
/// up to 128 pixels and the end of the image, and stops before a pixel that
/// equals its successor, which starts a run.
pub open spec fn scan_raw(d: Seq<u8>, bpp: nat, n: nat, cur: nat, l: nat) -> nat
    decreases 128 - l,
{
    if cur + l < n && l < 128 {
        if same_pixel(d, bpp, cur + l - 1, (cur + l) as int) {
            (l - 1) as nat
        } else {
            scan_raw(d, bpp, n, cur, l + 1)
        }
    } else {
        l
    }
}

/// Whether pixel `cur` starts a run: it equals the next pixel.
pub open spec fn starts_run(d: Seq<u8>, bpp: nat, n: nat, cur: nat) -> bool {
    cur + 1 < n && same_pixel(d, bpp, cur as int, (cur + 1) as int)
}

/// The number of pixels of the packet written at pixel `cur`.
pub open spec fn packet_len(d: Seq<u8>, bpp: nat, n: nat, cur: nat) -> nat {
    if starts_run(d, bpp, n, cur) {
        scan_run(d, bpp, n, cur, 2)
    } else {
        scan_raw(d, bpp, n, cur, 1)
    }
}

/// The packet written at pixel `cur`: a run packet (control byte
/// `127 + length`, then the pixel) where a run starts, else a raw packet
/// (control byte `length - 1`, then the pixels).
pub open spec fn rle_packet(d: Seq<u8>, bpp: nat, n: nat, cur: nat) -> Seq<u8> {
    let l = packet_len(d, bpp, n, cur);
    if starts_run(d, bpp, n, cur) {
        seq![(l + 127) as u8] + d.subrange((cur * bpp) as int, (cur * bpp + bpp) as int)
    } else {
        seq![(l - 1) as u8] + d.subrange((cur * bpp) as int, ((cur + l) * bpp) as int)
    }
}

/// The packets written for the pixels from `cur` on, one after another.
/// (A packet always holds between 1 and the remaining pixels; see
/// `lemma_packet_len_bounds`.)
pub open spec fn rle_encode_from(d: Seq<u8>, bpp: nat, n: nat, cur: nat) -> Seq<u8>
    decreases n - cur,
{
    let l = packet_len(d, bpp, n, cur);
    if cur < n && 1 <= l && cur + l <= n {
        rle_packet(d, bpp, n, cur) + rle_encode_from(d, bpp, n, cur + l)
    } else {
        Seq::empty()
    }
}

/// The run-length encoding of the `n` pixels of `d`, `bpp` bytes each.
pub open spec fn rle_encode(d: Seq<u8>, bpp: nat, n: nat) -> Seq<u8> {
    rle_encode_from(d, bpp, n, 0)
}

proof fn lemma_scan_run_bounds(d: Seq<u8>, bpp: nat, n: nat, cur: nat, l: nat)
    requires
        1 <= l <= 128,
        cur + l <= n,
    ensures
        l <= scan_run(d, bpp, n, cur, l) <= 128,
        cur + scan_run(d, bpp, n, cur, l) <= n,
    decreases 128 - l,
{
    if cur + l < n && l < 128 && same_pixel(d, bpp, cur + l - 1, (cur + l) as int) {
        lemma_scan_run_bounds(d, bpp, n, cur, l + 1);
    }
}

proof fn lemma_scan_raw_bounds(d: Seq<u8>, bpp: nat, n: nat, cur: nat, l: nat)
    requires
        2 <= l <= 128,
        cur + l <= n,
    ensures
        1 <= scan_raw(d, bpp, n, cur, l) <= 128,
        cur + scan_raw(d, bpp, n, cur, l) <= n,
    decreases 128 - l,
{
    if cur + l < n && l < 128 && !same_pixel(d, bpp, cur + l - 1, (cur + l) as int) {
        lemma_scan_raw_bounds(d, bpp, n, cur, l + 1);
    }
}

/// A packet holds between 1 and 128 pixels, and no more than remain.
pub proof fn lemma_packet_len_bounds(d: Seq<u8>, bpp: nat, n: nat, cur: nat)
    requires
        cur < n,
    ensures
        1 <= packet_len(d, bpp, n, cur) <= 128,
        cur + packet_len(d, bpp, n, cur) <= n,
{
    if starts_run(d, bpp, n, cur) {
        lemma_scan_run_bounds(d, bpp, n, cur, 2);
    } else if cur + 1 < n {
        lemma_scan_raw_bounds(d, bpp, n, cur, 2);
    }
}

/// Within a run found by `scan_run`, every pixel equals the first.
proof fn lemma_scan_run_repeats(d: Seq<u8>, bpp: nat, n: nat, cur: nat, l: nat)
    requires
        1 <= bpp,
        2 <= l <= 128,
        cur + l <= n,
        d.len() == n * bpp,
        d.subrange((cur * bpp) as int, (cur * bpp + l * bpp) as int) == repeat_pixel(
            d.subrange((cur * bpp) as int, (cur * bpp + bpp) as int),
            l,
        ),
    ensures
        d.subrange((cur * bpp) as int, (cur * bpp + scan_run(d, bpp, n, cur, l) * bpp) as int) == repeat_pixel(
            d.subrange((cur * bpp) as int, (cur * bpp + bpp) as int),
            scan_run(d, bpp, n, cur, l),
        ),
    decreases 128 - l,
{
    if cur + l < n && l < 128 && same_pixel(d, bpp, cur + l - 1, (cur + l) as int) {
        let cs = (cur * bpp) as int;
        lemma_mul_add(cur as int, (l - 1) as int, bpp as int);
        lemma_mul_add(cur as int, l as int, bpp as int);
        lemma_mul_add(cur as int, (l + 1) as int, bpp as int);
        lemma_mul_add(l as int, 1, bpp as int);
        lemma_mul_le((cur + l + 1) as int, n as int, bpp as int);
        lemma_run_extend(d, cs, bpp as int, l as int);
        lemma_scan_run_repeats(d, bpp, n, cur, l + 1);
    }
}

/// The encoding of the pixels from `cur` on decodes back to them.
pub proof fn lemma_rle_encode_from_decodes(d: Seq<u8>, bpp: nat, n: nat, cur: nat)
    requires
        cur <= n,
        n == 0 || bpp >= 1,
        d.len() == n * bpp,
    ensures
        rle_decode(rle_encode_from(d, bpp, n, cur), bpp, (n - cur) as nat) == Some(
            (d.subrange((cur * bpp) as int, (n * bpp) as int), rle_encode_from(d, bpp, n, cur).len()),
        ),
    decreases n - cur,
{
    if cur == n {
        assert(d.subrange((cur * bpp) as int, (n * bpp) as int) =~= Seq::<u8>::empty());
    } else {
        let l = packet_len(d, bpp, n, cur);
        lemma_packet_len_bounds(d, bpp, n, cur);
        let p = rle_packet(d, bpp, n, cur);
        let rest = rle_encode_from(d, bpp, n, cur + l);
        let cs = (cur * bpp) as int;
        lemma_mul_add(cur as int, l as int, bpp as int);
        lemma_mul_add(cur as int, 1, bpp as int);
        lemma_mul_le(l as int, 128, bpp as int);
        lemma_mul_le((cur + l) as int, n as int, bpp as int);
        lemma_mul_le((cur + 1) as int, n as int, bpp as int);
        let chunk = d.subrange(cs, cs + l * bpp);
        if starts_run(d, bpp, n, cur) {
            let px = d.subrange(cs, cs + bpp);
            lemma_mul_add(cur as int, 2, bpp as int);
            lemma_mul_le((cur + 2) as int, n as int, bpp as int);
            lemma_mul_add(1, 1, bpp as int);
            assert(d.subrange(cs + 0 * bpp, cs + 1 * bpp) == d.subrange(cs + 1 * bpp, cs + 2 * bpp));
            lemma_run_extend(d, cs, bpp as int, 1);
            lemma_scan_run_repeats(d, bpp, n, cur, 2);
            lemma_rle_run_packet(p, px, bpp, l);
        } else {
            assert(d.subrange(cs, ((cur + l) * bpp) as int) == chunk);
            lemma_rle_raw_packet(p, chunk, bpp, l);
        }
        lemma_rle_encode_from_decodes(d, bpp, n, cur + l);
        lemma_rle_concat(p, rest, bpp, l, (n - cur - l) as nat);
        assert((l + (n - cur - l)) as nat == (n - cur) as nat);
        assert(chunk + d.subrange(((cur + l) * bpp) as int, (n * bpp) as int) =~= d.subrange(cs, (n * bpp) as int));
    }
}

impl TGAImage {
    /// The pixels as run-length packets (`rle_encode`, which `rle_decode`
    /// reads back): a run of 2 to 128 equal pixels becomes one run packet,
    /// and other pixels go into raw packets of up to 128 pixels that stop
    /// before the next run.
    pub fn unload_rle_data(&self) -> (r: Vec<u8>)
        requires
            self.wf(),
            self@.data.len() == self@.nbytes(),
        ensures
            r@ == rle_encode(self@.data, self@.bytespp as nat, (self@.width * self@.height) as nat),
            rle_decode(r@, self@.bytespp as nat, (self@.width * self@.height) as nat) == Some(
                (self@.data, r@.len()),
            ),
    {
        let bpp = self.bytespp as usize;
        proof {
            lemma_mul_le(0, self.width as int, self.height as int);
            if bpp >= 1 {
                lemma_mul_le(1, bpp as int, self.width * self.height);
            }
        }
        let nbytes = self.data.len();
        let npixels: usize = self.width as usize * self.height as usize;
        let data = self.data.as_slice();
        let ghost d = data@;
        let ghost (gb, gn) = (bpp as nat, npixels as nat);
        let mut out: Vec<u8> = Vec::new();
        let mut curpixel: usize = 0;
        assert(out@ + rle_encode_from(d, gb, gn, 0) =~= rle_encode(d, gb, gn));
        while curpixel < npixels
            invariant
                curpixel <= npixels,
                npixels == self@.width * self@.height,
                bpp == self@.bytespp,
                bpp <= 4,
                npixels > 0 ==> bpp >= 1,
                data@ == self@.data,
                d == data@,
                gb == bpp,
                gn == npixels,
                data@.len() == nbytes == npixels * bpp,
                rle_encode(d, gb, gn) == out@ + rle_encode_from(d, gb, gn, curpixel as nat),
            decreases npixels - curpixel,
        {
            let ghost cur = curpixel as nat;
            proof {
                lemma_mul_le(curpixel as int, npixels as int, bpp as int);
            }
            let chunkstart = curpixel * bpp;
            let mut run_length: usize = 1;
            let mut raw = true;
            while curpixel + run_length < npixels && run_length < 128
                invariant_except_break
                    run_length == 1 ==> raw,
                    run_length >= 2 ==> raw == !starts_run(d, gb, gn, cur) && packet_len(
                        d,
                        gb,
                        gn,
                        cur,
                    ) == if raw {
                        scan_raw(d, gb, gn, cur, run_length as nat)
                    } else {
                        scan_run(d, gb, gn, cur, run_length as nat)
                    },
                invariant
                    1 <= run_length <= 128,
                    curpixel + run_length <= npixels,
                    curpixel < npixels,
                    1 <= bpp <= 4,
                    cur == curpixel,
                    d == data@,
                    gb == bpp,
                    gn == npixels,
                    chunkstart == curpixel * bpp,
                    data@.len() == npixels * bpp <= usize::MAX,
                ensures
                    1 <= run_length <= 128,
                    curpixel + run_length <= npixels,
                    run_length == packet_len(d, gb, gn, cur),
                    raw == !starts_run(d, gb, gn, cur),
                decreases 128 - run_length,
            {
                proof {
                    lemma_mul_le((curpixel + run_length + 1) as int, npixels as int, bpp as int);
                    lemma_mul_add(curpixel as int, (run_length - 1) as int, bpp as int);
                    lemma_mul_add(curpixel as int, run_length as int, bpp as int);
                    lemma_mul_add(run_length as int, 1, bpp as int);
                }
                let prev = (curpixel + run_length - 1) * bpp;
                let succ_eq = bytes_equal(data, prev, prev + bpp, bpp);
                assert(succ_eq == same_pixel(
                    d,
                    gb,
                    cur + run_length - 1,
                    (cur + run_length) as int,
                ));
                if run_length == 1 {
                    raw = !succ_eq;
                }
                if raw && succ_eq {
                    run_length = run_length - 1;
                    break;
                }
                if !raw && !succ_eq {
                    break;
                }
                run_length = run_length + 1;
            }
            proof {
                lemma_mul_le(run_length as int, 128, bpp as int);
                lemma_mul_le((curpixel + run_length) as int, npixels as int, bpp as int);
                lemma_mul_add(curpixel as int, run_length as int, bpp as int);
                lemma_mul_add(curpixel as int, 1, bpp as int);
                lemma_mul_le((curpixel + 1) as int, npixels as int, bpp as int);
            }
            let mut packet: Vec<u8> = Vec::new();
            if raw {
                packet.push((run_length - 1) as u8);
                push_range(&mut packet, data, chunkstart, chunkstart + run_length * bpp);
            } else {
                packet.push((run_length + 127) as u8);
                push_range(&mut packet, data, chunkstart, chunkstart + bpp);
            }
            proof {
                assert(packet@ =~= rle_packet(d, gb, gn, cur));
                assert(out@ + rle_encode_from(d, gb, gn, cur) =~= (out@ + packet@)
                    + rle_encode_from(d, gb, gn, cur + run_length as nat));
            }
            out.append(&mut packet);
            curpixel = curpixel + run_length;
        }
        proof {
            assert(out@ + rle_encode_from(d, gb, gn, curpixel as nat) =~= out@);
            lemma_rle_encode_from_decodes(d, gb, gn, 0);
            assert(d.subrange(0, (gn * gb) as int) =~= d);
        }
        out
    }
}


/// Whether the error is one of reading or writing TGA data.
#[derive(Debug, Clone, Copy, PartialEq, Eq)]
pub enum TgaError {
    /// The image has no pixel bytes.
    NoData,
    /// The data ends before the header or the pixels do.
    Truncated,
    /// The header's color-map fields contradict each other.
    CorruptHeader,
    /// The header gives a pixel size other than 8, 24 or 32 bits.
    BadBitsPerPixel,
    /// The header gives an image type other than raw or run-length
    /// encoded grey or true color.
    UnknownDataType,
    /// The run-length packets do not encode the pixels.
    BadRleData,
    /// The image is too large for the file format.
    TooLarge,
}

/// Byte `t` of pixel (x, y) lies in row `y` of a buffer of `w * bpp`-byte rows.
proof fn lemma_offset_row(w: int, bpp: int, x: int, y: int, t: int)
    requires
        0 <= x < w,
        0 <= y,
        0 <= t < bpp,
    ensures
        (x + y * w) * bpp + t == y * (w * bpp) + (x * bpp + t),
        0 <= x * bpp + t < w * bpp,
{
    assert((x + y * w) * bpp + t == y * (w * bpp) + (x * bpp + t)) by (nonlinear_arith);
    assert(0 <= x * bpp + t < w * bpp) by (nonlinear_arith)
        requires
            0 <= x < w,
            0 <= t < bpp,
    ;
}

/// A position `y * l + c` with `c < l` lies in line `i` exactly when `y == i`.
proof fn lemma_line_of(k: int, y: int, c: int, i: int, l: int)
    requires
        l > 0,
        0 <= c < l,
        k == y * l + c,
    ensures
        (i * l <= k < i * l + l) <==> y == i,
{
    lemma_fundamental_div_mod_converse(k, l, y, c);
    if i * l <= k < i * l + l {
        lemma_fundamental_div_mod_converse(k, l, i, k - i * l);
    }
}

/// Byte `t` of pixel (x, y) lies among the bytes of pixel (x2, y2) exactly
/// when the two pixels are the same.
proof fn lemma_pixel_of(w: int, bpp: int, x: int, y: int, t: int, x2: int, y2: int)
    requires
        0 <= x < w,
        0 <= x2 < w,
        0 <= y,
        0 <= y2,
        0 <= t < bpp,
    ensures
        ((x2 + y2 * w) * bpp <= (x + y * w) * bpp + t < (x2 + y2 * w) * bpp + bpp) <==> (x == x2
            && y == y2),
{
    let k = (x + y * w) * bpp + t;
    lemma_line_of(k, x + y * w, t, x2 + y2 * w, bpp);
    if x + y * w == x2 + y2 * w {
        lemma_line_of(x + y * w, y, x, y2, w);
    }
}

/// The pixels (x, y) and (x2, y) with `x < x2` do not overlap.
proof fn lemma_pixels_apart(w: int, bpp: int, x: int, x2: int, y: int)
    requires
        0 <= x < x2 < w,
        0 <= y,
        0 <= bpp,
    ensures
        (x + y * w) * bpp + bpp <= (x2 + y * w) * bpp,
{
    assert((x + y * w) * bpp + bpp <= (x2 + y * w) * bpp) by (nonlinear_arith)
        requires
            x < x2,
            0 <= bpp,
    ;
}

impl TGAImage {
    /// Exchanges the `bytes_per_line` bytes at `dst_idx` with those at `src_idx`.
    fn swap_line(&mut self, dst_idx: usize, src_idx: usize, bytes_per_line: usize)
        requires
            old(self).wf(),
            dst_idx + bytes_per_line <= src_idx || src_idx + bytes_per_line <= dst_idx,
            dst_idx + bytes_per_line <= old(self)@.data.len(),
            src_idx + bytes_per_line <= old(self)@.data.len(),
        ensures
            final(self).wf(),
            final(self)@.width == old(self)@.width,
            final(self)@.height == old(self)@.height,
            final(self)@.bytespp == old(self)@.bytespp,
            final(self)@.data.len() == old(self)@.data.len(),
            forall|k: int|
                0 <= k < old(self)@.data.len() ==> #[trigger] final(self)@.data[k] == if dst_idx <= k
                    < dst_idx + bytes_per_line {
                    old(self)@.data[k - dst_idx + src_idx]
                } else if src_idx <= k < src_idx + bytes_per_line {
                    old(self)@.data[k - src_idx + dst_idx]
                } else {
                    old(self)@.data[k]
                },
    {
        let len = self.data.len();
        let mut j: usize = 0;
        while j < bytes_per_line
            invariant
                j <= bytes_per_line,
                len == old(self)@.data.len(),
                dst_idx + bytes_per_line <= src_idx || src_idx + bytes_per_line <= dst_idx,
                dst_idx + bytes_per_line <= old(self)@.data.len(),
                src_idx + bytes_per_line <= old(self)@.data.len(),
                self.width == old(self).width,
                self.height == old(self).height,
                self.bytespp == old(self).bytespp,
                self@.data.len() == old(self)@.data.len(),
                forall|k: int|
                    0 <= k < old(self)@.data.len() ==> #[trigger] self@.data[k] == if dst_idx <= k
                        < dst_idx + j {
                        old(self)@.data[k - dst_idx + src_idx]
                    } else if src_idx <= k < src_idx + j {
                        old(self)@.data[k - src_idx + dst_idx]
                    } else {
                        old(self)@.data[k]
                    },
            decreases bytes_per_line - j,
        {
            let a = self.data[dst_idx + j];
            let b = self.data[src_idx + j];
            self.data.set(dst_idx + j, b);
            self.data.set(src_idx + j, a);
            j = j + 1;
        }
    }

    /// Turns the image upside down: the rows trade places with their
    /// mirror rows. An image without pixel bytes is refused with `NoData`.
    pub fn flip_vertically(&mut self) -> (r: Result<(), TgaError>)
        requires
            old(self).wf(),
        ensures
            final(self).wf(),
            final(self)@.width == old(self)@.width,
            final(self)@.height == old(self)@.height,
            final(self)@.bytespp == old(self)@.bytespp,
            final(self)@.data.len() == old(self)@.data.len(),
            old(self)@.data.len() == 0 ==> r == Err::<(), TgaError>(TgaError::NoData),
            old(self)@.data.len() > 0 ==> r is Ok,
            forall|x: int, y: int, t: int|
                old(self)@.in_range(x, y, t) && old(self)@.data.len() > 0 ==> #[trigger] final(self)@.byte(x, y, t) == old(self)@.byte(x, old(self)@.height - 1 - y, t),
    {
        if self.data.len() == 0 {
            return Err(TgaError::NoData);
        }
        let ghost m = self@;
        let w = self.width as usize;
        let h = self.height as usize;
        let bpp = self.bytespp as usize;
        let len = self.data.len();
        proof {
            assert(w * h * bpp == h * (w * bpp)) by (nonlinear_arith);
            assert(h >= 1 && w * bpp >= 0) by (nonlinear_arith)
                requires
                    h * (w * bpp) > 0,
                    h >= 0,
                    w >= 0,
                    bpp >= 0,
            ;
            lemma_mul_le(1, h as int, (w * bpp) as int);
        }
        let bytes_per_line: usize = w * bpp;
        let half: usize = h / 2;
        let mut i: usize = 0;
        while i < half
            invariant
                self.wf(),
                i <= half == h / 2,
                w == m.width,
                h == m.height,
                bpp == m.bytespp >= 1,
                bytes_per_line == w * bpp,
                m.data.len() == h * bytes_per_line,
                m.data.len() == len,
                self@.width == m.width,
                self@.height == m.height,
                self@.bytespp == m.bytespp,
                self@.data.len() == m.data.len(),
                forall|x: int, y: int, t: int|
                    m.in_range(x, y, t) ==> #[trigger] self@.byte(x, y, t) == if y < i || y >= h
                        - i {
                        m.byte(x, h - 1 - y, t)
                    } else {
                        m.byte(x, y, t)
                    },
            decreases half - i,
        {
            let ghost before = self@;
            proof {
                lemma_mul_le((i + 1) as int, (h - 1 - i) as int, bytes_per_line as int);
                lemma_mul_le((h - i) as int, h as int, bytes_per_line as int);
                lemma_mul_add((h - 1 - i) as int, 1, bytes_per_line as int);
                lemma_mul_add(i as int, 1, bytes_per_line as int);
            }
            let l1 = i * bytes_per_line;
            let l2 = (h - 1 - i) * bytes_per_line;
            self.swap_line(l1, l2, bytes_per_line);
            proof {
                assert forall|x: int, y: int, t: int| m.in_range(x, y, t) implies #[trigger] self@.byte(
                    x,
                    y,
                    t,
                ) == if y < i + 1 || y >= h - (i + 1) {
                    m.byte(x, h - 1 - y, t)
                } else {
                    m.byte(x, y, t)
                } by {
                    let l = bytes_per_line as int;
                    lemma_pixel_in_buffer(m, x, y);
                    lemma_pixel_in_buffer(m, x, h - 1 - y);
                    lemma_offset_row(w as int, bpp as int, x, y, t);
                    let c = x * bpp + t;
                    let k = y * l + c;
                    lemma_line_of(k, y, c, i as int, l);
                    lemma_line_of(k, y, c, h - 1 - i, l);
                    lemma_offset_row(w as int, bpp as int, x, h - 1 - y, t);
                    assert(self@.data[k] == self@.byte(x, y, t));
                    if y == i {
                        assert(k - l1 + l2 == (h - 1 - y) * l + c);
                        assert(self@.data[k] == before.byte(x, h - 1 - y, t));
                    } else if y == h - 1 - i {
                        assert(k - l2 + l1 == (h - 1 - y) * l + c);
                        assert(self@.data[k] == before.byte(x, h - 1 - y, t));
                    } else {
                        assert(self@.data[k] == before.byte(x, y, t));
                    }
                }
            }
            i = i + 1;
        }
        proof {
            assert forall|x: int, y: int, t: int| m.in_range(x, y, t) && m.data.len() > 0 implies #[trigger] self@.byte(
                x,
                y,
                t,
            ) == m.byte(x, m.height - 1 - y, t) by {
                if !(y < i || y >= h - i) {
                    assert(y == h - 1 - y);
                }
            }
        }
        Ok(())
    }

    /// Mirrors the image left to right: each pixel trades places with its
    /// mirror pixel in the same row. An image without pixel bytes is
    /// refused with `NoData`.
    pub fn flip_horizontally(&mut self) -> (r: Result<(), TgaError>)
        requires
            old(self).wf(),
        ensures
            final(self).wf(),
            final(self)@.width == old(self)@.width,
            final(self)@.height == old(self)@.height,
            final(self)@.bytespp == old(self)@.bytespp,
            final(self)@.data.len() == old(self)@.data.len(),
            old(self)@.data.len() == 0 ==> r == Err::<(), TgaError>(TgaError::NoData),
            old(self)@.data.len() > 0 ==> r is Ok,
            forall|x: int, y: int, t: int|
                old(self)@.in_range(x, y, t) && old(self)@.data.len() > 0 ==> #[trigger] final(self)@.byte(x, y, t) == old(self)@.byte(old(self)@.width - 1 - x, y, t),
    {
        if self.data.len() == 0 {
            return Err(TgaError::NoData);
        }
        let ghost m = self@;
        let w = self.width as usize;
        let h = self.height as usize;
        let bpp = self.bytespp as usize;
        let len = self.data.len();
        let half: usize = w / 2;
        let mut i: usize = 0;
        while i < half
            invariant
                self.wf(),
                i <= half == w / 2,
                w == m.width,
                h == m.height,
                bpp == m.bytespp >= 1,
                m.data.len() > 0,
                m.data.len() == len,
                self@.width == m.width,
                self@.height == m.height,
                self@.bytespp == m.bytespp,
                self@.data.len() == m.data.len(),
                forall|x: int, y: int, t: int|
                    m.in_range(x, y, t) ==> #[trigger] self@.byte(x, y, t) == if x < i || x >= w
                        - i {
                        m.byte(w - 1 - x, y, t)
                    } else {
                        m.byte(x, y, t)
                    },
            decreases half - i,
        {
            let mut j: usize = 0;
            while j < h
                invariant
                    self.wf(),
                    i < half == w / 2,
                    j <= h,
                    w == m.width,
                    h == m.height,
                    bpp == m.bytespp >= 1,
                    m.data.len() > 0,
                    m.data.len() == len,
                    self@.width == m.width,
                    self@.height == m.height,
                    self@.bytespp == m.bytespp,
                    self@.data.len() == m.data.len(),
                    forall|x: int, y: int, t: int|
                        m.in_range(x, y, t) ==> #[trigger] self@.byte(x, y, t) == if x < i || x >= w
                            - i || ((x == i || x == w - 1 - i) && y < j) {
                            m.byte(w - 1 - x, y, t)
                        } else {
                            m.byte(x, y, t)
                        },
                decreases h - j,
            {
                let ghost before = self@;
                let x2 = w - 1 - i;
                proof {
                    lemma_pixel_in_buffer(m, i as int, j as int);
                    lemma_pixel_in_buffer(m, x2 as int, j as int);
                    lemma_pixels_apart(w as int, bpp as int, i as int, x2 as int, j as int);
                }
                let o1 = (i + j * w) * bpp;
                let o2 = (x2 + j * w) * bpp;
                self.swap_line(o1, o2, bpp);
                proof {
                    assert forall|x: int, y: int, t: int| m.in_range(x, y, t) implies #[trigger] self@.byte(
                        x,
                        y,
                        t,
                    ) == if x < i || x >= w - i || ((x == i || x == w - 1 - i) && y < j + 1) {
                        m.byte(w - 1 - x, y, t)
                    } else {
                        m.byte(x, y, t)
                    } by {
                        lemma_pixel_in_buffer(m, x, y);
                        lemma_pixel_of(w as int, bpp as int, x, y, t, i as int, j as int);
                        lemma_pixel_of(w as int, bpp as int, x, y, t, x2 as int, j as int);
                        let k = (x + y * w) * bpp + t;
                        assert(self@.data[k] == self@.byte(x, y, t));
                        if x == i && y == j {
                            assert(k - o1 + o2 == (x2 + j * w) * bpp + t);
                            assert(self@.data[k] == before.byte(x2 as int, y, t));
                        } else if x == x2 && y == j {
                            assert(k - o2 + o1 == (i + j * w) * bpp + t);
                            assert(self@.data[k] == before.byte(i as int, y, t));
                        } else {
                            assert(self@.data[k] == before.byte(x, y, t));
                        }
                    }
                }
                j = j + 1;
            }
            i = i + 1;
        }
        proof {
            assert forall|x: int, y: int, t: int| m.in_range(x, y, t) && m.data.len() > 0 implies #[trigger] self@.byte(
                x,
                y,
                t,
            ) == m.byte(m.width - 1 - x, y, t) by {
                if !(x < i || x >= w - i) {
                    assert(x == w - 1 - x);
                }
            }
        }
        Ok(())
    }
}


/// The two bytes of `v`, least significant first.
pub open spec fn le16(v: u16) -> Seq<u8> {
    seq![(v % 0x100) as u8, (v / 0x100) as u8]
}

/// The 18 bytes of a header: the fields in order, those of two bytes
/// least significant first.
pub open spec fn header_bytes(h: TGAHeader) -> Seq<u8> {
    seq![h.idlength, h.colormaptype, h.datatypecode] + le16(h.colormaporigin) + le16(
        h.colormaplength,
    ) + seq![h.colormapdepth] + le16(h.x_origin) + le16(h.y_origin) + le16(h.width) + le16(
        h.height,
    ) + seq![h.bitsperpixel, h.imagedescriptor]
}

/// The two-byte little-endian value at `at`.
pub open spec fn spec_u16_at(b: Seq<u8>, at: int) -> u16 {
    (b[at] + 0x100 * b[at + 1]) as u16
}

/// The header held by the first 18 bytes of `b`.
pub open spec fn parse_header(b: Seq<u8>) -> TGAHeader {
    TGAHeader {
        idlength: b[0],
        colormaptype: b[1],
        datatypecode: b[2],
        colormaporigin: spec_u16_at(b, 3),
        colormaplength: spec_u16_at(b, 5),
        colormapdepth: b[7],
        x_origin: spec_u16_at(b, 8),
        y_origin: spec_u16_at(b, 10),
        width: spec_u16_at(b, 12),
        height: spec_u16_at(b, 14),
        bitsperpixel: b[16],
        imagedescriptor: b[17],
    }
}

/// A header whose color-map fields contradict each other.
pub open spec fn header_corrupt(h: TGAHeader) -> bool {
    (h.width < 1 && h.height < 1 && h.colormaptype > 1) || (h.colormaptype == 0 && (
    h.colormaporigin > 0 || h.colormaplength > 0 || h.colormapdepth > 0))
}

/// What follows the pixel bytes of a file: eight zero bytes for the
/// developer and extension area offsets, then the signature
/// "TRUEVISION-XFILE." and a zero byte.
pub open spec fn tga_trailer() -> Seq<u8> {
    seq![
        0u8, 0, 0, 0, 0, 0, 0, 0,
        84, 82, 85, 69, 86, 73, 83, 73, 79, 78, 45, 88, 70, 73, 76, 69, 46, 0,
    ]
}

/// The header written for an image: its size, its pixel size in bits,
/// type 3 (grey) or 2 (true color), plus 8 when run-length encoded, and
/// the top-left origin flag.
pub open spec fn write_header(m: ImageModel, rle: bool) -> TGAHeader {
    TGAHeader {
        bitsperpixel: (m.bytespp * 8) as u8,
        width: m.width as u16,
        height: m.height as u16,
        datatypecode: if m.bytespp == 1 {
            if rle {
                11u8
            } else {
                3u8
            }
        } else {
            if rle {
                10u8
            } else {
                2u8
            }
        },
        imagedescriptor: 0x20,
        ..TGAHeader::zeroed()
    }
}

/// Whether `b` is a TGA file of the image `m`: its header, then the pixel
/// bytes as they are (or as their run-length packets, `rle_encode`), then
/// the trailer.
pub open spec fn is_tga_encoding(b: Seq<u8>, m: ImageModel, rle: bool) -> bool {
    let body = b.subrange(18, b.len() - 26);
    &&& b.len() >= 18 + 26
    &&& b.subrange(0, 18) == header_bytes(write_header(m, rle))
    &&& b.subrange(b.len() - 26, b.len() as int) == tga_trailer()
    &&& if rle {
        body == rle_encode(m.data, m.bytespp as nat, (m.width * m.height) as nat)
    } else {
        body == m.data
    }
}

/// Reading a TGA file: the header and the pixel bytes in file order, or
/// the error. The pixel bytes follow the header; types 2 and 3 hold them
/// raw, types 10 and 11 as run-length packets (see `rle_decode`).
pub open spec fn tga_decode(b: Seq<u8>) -> Result<(TGAHeader, Seq<u8>), TgaError> {
    if b.len() < 18 {
        Err(TgaError::Truncated)
    } else {
        let h = parse_header(b);
        let bpp = h.bitsperpixel / 8;
        let n = h.width * h.height;
        let body = b.subrange(18, b.len() as int);
        if header_corrupt(h) {
            Err(TgaError::CorruptHeader)
        } else if bpp != 1 && bpp != 3 && bpp != 4 {
            Err(TgaError::BadBitsPerPixel)
        } else if n * bpp > usize::MAX {
            Err(TgaError::TooLarge)
        } else if h.datatypecode == 2 || h.datatypecode == 3 {
            if body.len() < n * bpp {
                Err(TgaError::Truncated)
            } else {
                Ok((h, body.subrange(0, n * bpp)))
            }
        } else if h.datatypecode == 10 || h.datatypecode == 11 {
            match rle_decode(body, bpp as nat, n as nat) {
                Some((d, _)) => Ok((h, d)),
                None => Err(TgaError::BadRleData),
            }
        } else {
            Err(TgaError::UnknownDataType)
        }
    }
}

/// The two-byte little-endian value at `at` in `buf`.
fn read_u16_le(buf: &[u8], at: usize) -> (r: u16)
    requires
        at + 2 <= buf@.len() <= usize::MAX,
    ensures
        r == spec_u16_at(buf@, at as int),
{
    let s = slice_subrange(buf, at, at + 2);
    proof {
        reveal_with_fuel(le_value, 3);
        assert(s@.subrange(0, 2) =~= s@);
        assert(s@.drop_first().drop_first() =~= Seq::<u8>::empty());
    }
    u16_from_le(s)
}

/// Reads the header at the front of `buf`.
pub fn read_header(buf: &[u8]) -> (r: Result<TGAHeader, TgaError>)
    ensures
        buf@.len() < 18 ==> r == Err::<TGAHeader, TgaError>(TgaError::Truncated),
        buf@.len() >= 18 && header_corrupt(parse_header(buf@)) ==> r == Err::<TGAHeader, TgaError>(
            TgaError::CorruptHeader,
        ),
        buf@.len() >= 18 && !header_corrupt(parse_header(buf@)) ==> r == Ok::<TGAHeader, TgaError>(
            parse_header(buf@),
        ),
{
    let len = buf.len();
    if len < 18 {
        return Err(TgaError::Truncated);
    }
    let hdr = TGAHeader {
        idlength: buf[0],
        colormaptype: buf[1],
        datatypecode: buf[2],
        colormaporigin: read_u16_le(buf, 3),
        colormaplength: read_u16_le(buf, 5),
        colormapdepth: buf[7],
        x_origin: read_u16_le(buf, 8),
        y_origin: read_u16_le(buf, 10),
        width: read_u16_le(buf, 12),
        height: read_u16_le(buf, 14),
        bitsperpixel: buf[16],
        imagedescriptor: buf[17],
    };
    if hdr.width < 1 && hdr.height < 1 && hdr.colormaptype > 1 || (hdr.colormaptype == 0 && (
    hdr.colormaporigin > 0 || hdr.colormaplength > 0 || hdr.colormapdepth > 0)) {
        Err(TgaError::CorruptHeader)
    } else {
        Ok(hdr)
    }
}

/// Appends the two bytes of `v`, least significant first.
fn push_u16_le(out: &mut Vec<u8>, v: u16)
    ensures
        final(out)@ == old(out)@ + le16(v),
{
    let b = u16_to_le(v);
    out.push(b[0]);
    out.push(b[1]);
    assert(final(out)@ =~= old(out)@ + le16(v));
}

impl TGAHeader {
    /// The 18 bytes of the header as they stand in a file.
    pub fn to_bytes(&self) -> (r: Vec<u8>)
        ensures
            r@ == header_bytes(*self),
    {
        let mut out: Vec<u8> = Vec::new();
        out.push(self.idlength);
        out.push(self.colormaptype);
        out.push(self.datatypecode);
        push_u16_le(&mut out, self.colormaporigin);
        push_u16_le(&mut out, self.colormaplength);
        out.push(self.colormapdepth);
        push_u16_le(&mut out, self.x_origin);
        push_u16_le(&mut out, self.y_origin);
        push_u16_le(&mut out, self.width);
        push_u16_le(&mut out, self.height);
        out.push(self.bitsperpixel);
        out.push(self.imagedescriptor);
        assert(out@ =~= header_bytes(*self));
        out
    }
}

/// Reading back the header bytes gives the header.
pub proof fn lemma_header_round_trip(h: TGAHeader, rest: Seq<u8>)
    ensures
        parse_header(header_bytes(h) + rest) == h,
{
    let b = header_bytes(h) + rest;
    assert(b[3] == (h.colormaporigin % 0x100) as u8 && b[4] == (h.colormaporigin / 0x100) as u8);
    assert(b[5] == (h.colormaplength % 0x100) as u8 && b[6] == (h.colormaplength / 0x100) as u8);
    assert(b[8] == (h.x_origin % 0x100) as u8 && b[9] == (h.x_origin / 0x100) as u8);
    assert(b[10] == (h.y_origin % 0x100) as u8 && b[11] == (h.y_origin / 0x100) as u8);
    assert(b[12] == (h.width % 0x100) as u8 && b[13] == (h.width / 0x100) as u8);
    assert(b[14] == (h.height % 0x100) as u8 && b[15] == (h.height / 0x100) as u8);
}


impl TGAImage {
    /// The image as a TGA file: the header, the pixel bytes (as run-length
    /// packets where `rle` is set), and the trailer. An image without pixel
    /// bytes is refused with `NoData`, one wider or higher than 65535 pixels
    /// with `TooLarge`.
    pub fn to_tga_bytes(&self, rle: bool) -> (r: Result<Vec<u8>, TgaError>)
        requires
            self.wf(),
        ensures
            self@.data.len() == 0 ==> r == Err::<Vec<u8>, TgaError>(TgaError::NoData),
            self@.data.len() > 0 && (self@.width > 0xffff || self@.height > 0xffff) ==> r == Err::<
                Vec<u8>,
                TgaError,
            >(TgaError::TooLarge),
            self@.data.len() > 0 && self@.width <= 0xffff && self@.height <= 0xffff ==> r is Ok
                && is_tga_encoding(r->Ok_0@, self@, rle),
    {
        if self.data.len() == 0 {
            return Err(TgaError::NoData);
        }
        if self.width > 0xffff || self.height > 0xffff {
            return Err(TgaError::TooLarge);
        }
        let mut header = TGAHeader::new();
        header.bitsperpixel = (self.bytespp * 8) as u8;
        header.width = self.width as u16;
        header.height = self.height as u16;
        header.datatypecode = if self.bytespp == GRAYSCALE as i32 {
            if rle {
                11
            } else {
                3
            }
        } else {
            if rle {
                10
            } else {
                2
            }
        };
        header.imagedescriptor = 0x20;
        assert(header == write_header(self@, rle));
        let mut out = header.to_bytes();
        let ghost head = out@;
        if !rle {
            push_range(&mut out, self.data.as_slice(), 0, self.data.len());
        } else {
            let mut packets = self.unload_rle_data();
            let ghost pk = packets@;
            out.append(&mut packets);
            assert(out@.subrange(18, out@.len() as int) =~= pk);
        }
        let ghost body_end = out@.len();
        let ghost with_body = out@;
        // eight zero bytes, then "TRUEVISION-XFILE." and a zero byte
        let trailer: [u8; 26] = [
            0, 0, 0, 0, 0, 0, 0, 0,
            84, 82, 85, 69, 86, 73, 83, 73, 79, 78, 45, 88, 70, 73, 76, 69, 46, 0,
        ];
        let mut i: usize = 0;
        while i < 26
            invariant
                i <= 26,
                trailer@ == tga_trailer(),
                out@ == with_body + trailer@.subrange(0, i as int),
            decreases 26 - i,
        {
            out.push(trailer[i]);
            i = i + 1;
            assert(out@ =~= with_body + trailer@.subrange(0, i as int));
        }
        proof {
            assert(trailer@ =~= tga_trailer());
            assert(out@.subrange(0, 18) =~= head);
            assert(out@.subrange(out@.len() - 26, out@.len() as int) =~= tga_trailer());
            assert(out@.subrange(18, out@.len() - 26) =~= with_body.subrange(18, body_end as int));
            if !rle {
                assert(with_body.subrange(18, body_end as int) =~= self@.data);
            }
            assert(out@.subrange(0, 18) == header_bytes(write_header(self@, rle)));
        }
        Ok(out)
    }

    /// Reads an image from the bytes of a TGA file (see `tga_decode`), then
    /// turns it upright: upside down unless the descriptor's 0x20 bit is
    /// set, and mirrored where its 0x10 bit is set.
    pub fn from_tga_bytes(bytes: &[u8]) -> (r: Result<TGAImage, TgaError>)
        ensures
            tga_decode(bytes@) is Err ==> r == Err::<TGAImage, TgaError>(
                tga_decode(bytes@)->Err_0,
            ),
            tga_decode(bytes@) is Ok ==> r is Ok && ({
                let (h, raw) = tga_decode(bytes@)->Ok_0;
                let img = r->Ok_0@;
                let flip_y = h.imagedescriptor & 0x20 == 0;
                let flip_x = h.imagedescriptor & 0x10 != 0;
                &&& r->Ok_0.wf()
                &&& img.width == h.width
                &&& img.height == h.height
                &&& img.bytespp == h.bitsperpixel / 8
                &&& img.data.len() == raw.len()
                &&& (!flip_y && !flip_x ==> img.data == raw)
                &&& forall|x: int, y: int, t: int|
                    #![trigger img.byte(x, y, t)]
                    img.in_range(x, y, t) ==> img.byte(x, y, t) == (ImageModel { data: raw, ..img }).byte(
                        if flip_x {
                            img.width - 1 - x
                        } else {
                            x
                        },
                        if flip_y {
                            img.height - 1 - y
                        } else {
                            y
                        },
                        t,
                    )
            }),
    {
        let hdr = match read_header(bytes) {
            Ok(h) => h,
            Err(e) => {
                return Err(e);
            },
        };
        let bpp = (hdr.bitsperpixel / 8) as usize;
        if bpp != 1 && bpp != 3 && bpp != 4 {
            return Err(TgaError::BadBitsPerPixel);
        }
        let w = hdr.width as u64;
        let h = hdr.height as u64;
        proof {
            lemma_mul_le(w as int, 0xffff, h as int);
            lemma_mul_le(h as int, 0xffff, 0xffff);
            lemma_mul_le((w * h) as int, 0xffff * 0xffff as int, bpp as int);
        }
        let nbytes: u64 = w * h * bpp as u64;
        if nbytes > usize::MAX as u64 {
            return Err(TgaError::TooLarge);
        }
        let nbytes = nbytes as usize;
        let mut img = TGAImage { data: vec![], width: w as i32, height: h as i32, bytespp: bpp as i32 };
        let body = slice_subrange(bytes, 18, bytes.len());
        if hdr.datatypecode == 2 || hdr.datatypecode == 3 {
            if body.len() < nbytes {
                return Err(TgaError::Truncated);
            }
            let mut data: Vec<u8> = Vec::new();
            push_range(&mut data, body, 0, nbytes);
            img.data = data;
        } else if hdr.datatypecode == 10 || hdr.datatypecode == 11 {
            match img.load_rle_data(body) {
                Some(_) => {},
                None => {
                    return Err(TgaError::BadRleData);
                },
            }
        } else {
            return Err(TgaError::UnknownDataType);
        }
        let ghost raw = img@;
        if hdr.imagedescriptor & 0x20 == 0 {
            let _ = img.flip_vertically();
        }
        let ghost mid = img@;
        if hdr.imagedescriptor & 0x10 != 0 {
            let _ = img.flip_horizontally();
        }
        proof {
            let fin = img@;
            let flip_y = hdr.imagedescriptor & 0x20 == 0;
            let flip_x = hdr.imagedescriptor & 0x10 != 0;
            assert(tga_decode(bytes@)->Ok_0 == (hdr, raw.data));
            assert forall|x: int, y: int, t: int| #[trigger] fin.in_range(x, y, t) implies fin.byte(
                x,
                y,
                t,
            ) == (ImageModel { data: raw.data, ..fin }).byte(
                if flip_x {
                    fin.width - 1 - x
                } else {
                    x
                },
                if flip_y {
                    fin.height - 1 - y
                } else {
                    y
                },
                t,
            ) by {
                let (ww, hh, bb) = (fin.width, fin.height, fin.bytespp);
                assert(ww * hh * bb > 0) by (nonlinear_arith)
                    requires
                        0 <= x < ww,
                        0 <= y < hh,
                        0 <= t < bb,
                ;
                assert(raw.data.len() > 0);
                let fx = if flip_x {
                    ww - 1 - x
                } else {
                    x
                };
                assert(mid.in_range(fx, y, t));
                assert(fin.byte(x, y, t) == mid.byte(fx, y, t));
            }
        }
        Ok(img)
    }
}

/// Writing an image as a TGA file and reading the file back gives the
/// image's size, pixel size and pixel bytes, in the upright orientation.
pub proof fn lemma_tga_round_trip(b: Seq<u8>, m: ImageModel, rle: bool)
    requires
        m.wf(),
        m.data.len() > 0,
        m.width <= 0xffff,
        m.height <= 0xffff,
        is_tga_encoding(b, m, rle),
    ensures
        tga_decode(b) == Ok::<(TGAHeader, Seq<u8>), TgaError>((write_header(m, rle), m.data)),
        write_header(m, rle).imagedescriptor & 0x20 != 0,
        write_header(m, rle).imagedescriptor & 0x10 == 0,
        write_header(m, rle).width == m.width,
        write_header(m, rle).height == m.height,
        write_header(m, rle).bitsperpixel / 8 == m.bytespp,
{
    let h = write_header(m, rle);
    let body = b.subrange(18, b.len() - 26);
    let rest = b.subrange(18, b.len() as int);
    assert(b =~= header_bytes(h) + rest);
    lemma_header_round_trip(h, rest);
    assert(0x20u8 & 0x20 != 0 && 0x20u8 & 0x10 == 0) by (bit_vector);
    assert(rest =~= body + tga_trailer());
    assert(h.width * h.height == m.width * m.height);
    let n = h.width * h.height;
    let bpp = h.bitsperpixel / 8;
    if m.bytespp == 0 {
        assert(m.nbytes() == 0) by (nonlinear_arith)
            requires
                m.bytespp == 0,
                m.nbytes() == m.width * m.height * m.bytespp,
        ;
    }
    assert(n * bpp == m.nbytes());
    if rle {
        lemma_rle_encode_from_decodes(m.data, m.bytespp as nat, (m.width * m.height) as nat, 0);
        assert(m.data.subrange(0, m.nbytes()) =~= m.data);
        lemma_rle_concat(body, tga_trailer(), m.bytespp as nat, (m.width * m.height) as nat, 0);
        assert(rle_decode(tga_trailer(), m.bytespp as nat, 0) == Some((Seq::<u8>::empty(), 0nat)));
        assert(m.data + Seq::<u8>::empty() =~= m.data);
        assert(rle_decode(rest, bpp as nat, n as nat) == Some((m.data, body.len())));
        assert(h.datatypecode == 10 || h.datatypecode == 11);
    } else {
        assert(rest.subrange(0, m.width * m.height * m.bytespp) =~= m.data);
        assert(h.datatypecode == 2 || h.datatypecode == 3);
    }
}

} // verus!
