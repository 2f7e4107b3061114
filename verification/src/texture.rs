//! RGBA textures held as plain bytes, and the image operations that the
//! packer needs from the `image` crate.

use vstd::prelude::*;

verus! {

/// Byte offset of channel 0 of pixel `(x, y)` in a row-major RGBA buffer of
/// the given width.
pub open spec fn pixel_offset(width: int, x: int, y: int) -> int {
    4 * (y * width + x)
}

/// The buffer of an image of `width` by `height` pixels turned 90 degrees
/// clockwise: the result is `height` pixels wide and `width` pixels high, and
/// its pixel `(ox, oy)` is the source pixel `(oy, height - 1 - ox)`.
pub open spec fn rotate90_spec(width: int, height: int, px: Seq<u8>) -> Seq<u8> {
    Seq::new(
        px.len(),
        |i: int|
            {
                let p = i / 4;
                let ox = p % height;
                let oy = p / height;
                px[pixel_offset(width, oy, height - 1 - ox) + i % 4]
            },
    )
}

/// Byte `i` of a buffer `bottom_width` pixels wide belongs to a pixel that the
/// top image covers when it is laid with its top-left corner at `(x, y)`.
pub open spec fn covered_by_top(
    bottom_width: int,
    top_width: int,
    top_height: int,
    x: int,
    y: int,
    i: int,
) -> bool {
    let p = i / 4;
    let px = p % bottom_width;
    let py = p / bottom_width;
    x <= px < x + top_width && y <= py < y + top_height
}

/// The offset of the byte of the top image that lies over byte `i` of the bottom.
pub open spec fn top_offset(bottom_width: int, top_width: int, x: int, y: int, i: int) -> int {
    let p = i / 4;
    pixel_offset(top_width, p % bottom_width - x, p / bottom_width - y) + i % 4
}

/// The alpha byte of the top pixel that lies over byte `i` of the bottom.
pub open spec fn top_alpha(
    top: Seq<u8>,
    bottom_width: int,
    top_width: int,
    x: int,
    y: int,
    i: int,
) -> u8 {
    let p = i / 4;
    top[pixel_offset(top_width, p % bottom_width - x, p / bottom_width - y) + 3]
}

/// What `image::imageops::overlay` leaves in the bottom buffer after blending
/// the top image over it at `(x, y)`.
pub uninterp spec fn overlay_result(
    bottom: Seq<u8>,
    bottom_width: u32,
    bottom_height: u32,
    top: Seq<u8>,
    top_width: u32,
    top_height: u32,
    x: int,
    y: int,
) -> Seq<u8>;

/// `image::RgbaImage::new(width, height)`, taken apart into its raw buffer.
/// Claimed: the buffer holds `4 * width * height` bytes, all zero (a fully
/// transparent image); `image` panics when that length overflows `usize`,
/// which the `requires` leaves out.
#[verifier::external_body]
fn rgba_image_new(width: u32, height: u32) -> (px: Vec<u8>)
    requires
        4 * width * height <= usize::MAX,
    ensures
        px@ == Seq::new((4 * width * height) as nat, |i: int| 0u8),
{
    image::RgbaImage::new(width, height).into_raw()
}

/// `image::imageops::rotate90` on an RGBA image given by its raw buffer.
/// Claimed: the returned buffer is the source turned 90 degrees clockwise
/// (`rotate90_spec`), as `rotate90_in` in the crate's source writes pixel
/// `(x, y)` of the source to `(height - 1 - y, x)` of the destination.
#[verifier::external_body]
fn rgba_rotate90(width: u32, height: u32, pixels: &Vec<u8>) -> (out: Vec<u8>)
    requires
        pixels@.len() == 4 * width * height,
    ensures
        out@ == rotate90_spec(width as int, height as int, pixels@),
{
    let img = image::ImageBuffer::<image::Rgba<u8>, &[u8]>::from_raw(width, height, pixels.as_slice()).unwrap();
    image::imageops::rotate90(&img).into_raw()
}

/// `image::imageops::overlay` of one RGBA buffer over another at a
/// non-negative offset. The result is named `overlay_result`, because the
/// blend of a partly transparent pixel is computed in floating point.
/// Claimed besides, as the crate's `overlay` and `Rgba::blend` show: the
/// length is kept; bytes of pixels that the top does not cover are kept; a
/// covered pixel whose top alpha is 0 is kept, and one whose top alpha is 255
/// becomes the top pixel.
#[verifier::external_body]
fn rgba_overlay(
    bottom: &mut Vec<u8>,
    bottom_width: u32,
    bottom_height: u32,
    top: &Vec<u8>,
    top_width: u32,
    top_height: u32,
    x: i64,
    y: i64,
)
    requires
        old(bottom)@.len() == 4 * bottom_width * bottom_height,
        top@.len() == 4 * top_width * top_height,
        x >= 0,
        y >= 0,
    ensures
        final(bottom)@ == overlay_result(
            old(bottom)@, bottom_width, bottom_height, top@, top_width, top_height, x as int, y as int),
        final(bottom)@.len() == old(bottom)@.len(),
        forall|i: int|
            0 <= i < old(bottom)@.len() && !covered_by_top(
                bottom_width as int, top_width as int, top_height as int, x as int, y as int, i)
                ==> #[trigger] final(bottom)@[i] == old(bottom)@[i],
        forall|i: int|
            0 <= i < old(bottom)@.len() && covered_by_top(
                bottom_width as int, top_width as int, top_height as int, x as int, y as int, i)
                && top_alpha(top@, bottom_width as int, top_width as int, x as int, y as int, i) == 0
                ==> #[trigger] final(bottom)@[i] == old(bottom)@[i],
        forall|i: int|
            0 <= i < old(bottom)@.len() && covered_by_top(
                bottom_width as int, top_width as int, top_height as int, x as int, y as int, i)
                && top_alpha(top@, bottom_width as int, top_width as int, x as int, y as int, i) == 255
                ==> #[trigger] final(bottom)@[i] == top@[top_offset(
                bottom_width as int, top_width as int, x as int, y as int, i)],
{
    let mut b = image::ImageBuffer::<image::Rgba<u8>, &mut [u8]>::from_raw(bottom_width, bottom_height, bottom.as_mut_slice()).unwrap();
    let t = image::ImageBuffer::<image::Rgba<u8>, &[u8]>::from_raw(top_width, top_height, top.as_slice()).unwrap();
    image::imageops::overlay(&mut b, &t, x, y);
}

/// The abstract value of a texture: its size and its RGBA bytes.
pub struct Pixmap {
    pub width: u32,
    pub height: u32,
    pub pixels: Seq<u8>,
}

/// `bottom` after `top` is blended over it at `(x, y)`.
pub open spec fn overlay_pixmap(bottom: Pixmap, top: Pixmap, x: int, y: int) -> Pixmap {
    Pixmap {
        width: bottom.width,
        height: bottom.height,
        pixels: overlay_result(
            bottom.pixels, bottom.width, bottom.height, top.pixels, top.width, top.height, x, y),
    }
}

/// What an overlay is known to do byte by byte: `out` is as long as
/// `bottom`; a byte that `top` does not cover is kept; a covered byte whose
/// top pixel is fully transparent is kept, and one whose top pixel is fully
/// opaque becomes the top's byte.
pub open spec fn overlay_facts(bottom: Pixmap, top: Pixmap, x: int, y: int, out: Pixmap) -> bool {
    let bw = bottom.width as int;
    let tw = top.width as int;
    let th = top.height as int;
    &&& out.pixels.len() == bottom.pixels.len()
    &&& forall|i: int|
        0 <= i < bottom.pixels.len() && !covered_by_top(bw, tw, th, x, y, i) ==> #[trigger] out.pixels[i]
            == bottom.pixels[i]
    &&& forall|i: int|
        0 <= i < bottom.pixels.len() && covered_by_top(bw, tw, th, x, y, i) && top_alpha(
            top.pixels,
            bw,
            tw,
            x,
            y,
            i,
        ) == 0 ==> #[trigger] out.pixels[i] == bottom.pixels[i]
    &&& forall|i: int|
        0 <= i < bottom.pixels.len() && covered_by_top(bw, tw, th, x, y, i) && top_alpha(
            top.pixels,
            bw,
            tw,
            x,
            y,
            i,
        ) == 255 ==> #[trigger] out.pixels[i] == top.pixels[top_offset(bw, tw, x, y, i)]
}

/// `p` turned 90 degrees clockwise.
pub open spec fn rotate_pixmap(p: Pixmap) -> Pixmap {
    Pixmap {
        width: p.height,
        height: p.width,
        pixels: rotate90_spec(p.width as int, p.height as int, p.pixels),
    }
}

/// An RGBA image with 8 bits per channel, stored row by row.
pub struct Texture {
    width: u32,
    height: u32,
    pixels: Vec<u8>,
}

impl View for Texture {
    type V = Pixmap;

    closed spec fn view(&self) -> Pixmap {
        Pixmap { width: self.width, height: self.height, pixels: self.pixels@ }
    }
}

/// The buffer holds exactly four bytes for every pixel.
pub open spec fn pixmap_wf(p: Pixmap) -> bool {
    p.pixels.len() == 4 * p.width * p.height
}

impl Texture {
    #[verifier::type_invariant]
    closed spec fn inv(self) -> bool {
        self.pixels@.len() == 4 * self.width * self.height
    }

    /// A fully transparent image of the given size.
    pub fn new(width: u32, height: u32) -> (t: Texture)
        requires
            4 * width * height <= usize::MAX,
        ensures
            t@.width == width,
            t@.height == height,
            t@.pixels == Seq::new((4 * width * height) as nat, |i: int| 0u8),
    {
        let pixels = rgba_image_new(width, height);
        Texture { width, height, pixels }
    }

    /// The texture with the given raw buffer, if it holds exactly four bytes
    /// for each of the `width * height` pixels.
    pub fn from_raw(width: u32, height: u32, pixels: Vec<u8>) -> (t: Option<Texture>)
        ensures
            t is Some <==> pixels@.len() == 4 * width * height,
            t matches Some(t) ==> t@ == (Pixmap { width, height, pixels: pixels@ }),
    {
        let w: u64 = width as u64;
        let h: u64 = height as u64;
        proof {
            vstd::arithmetic::mul::lemma_mul_upper_bound(w as int, u32::MAX as int, h as int, u32::MAX as int);
        }
        let wh: u64 = w * h;
        proof {
            vstd::arithmetic::mul::lemma_mul_is_associative(4, width as int, height as int);
        }
        let len: u64 = pixels.len() as u64;
        if wh > (usize::MAX / 4) as u64 {
            return None;
        }
        if len != 4 * wh {
            return None;
        }
        Some(Texture { width, height, pixels })
    }

    pub fn width(&self) -> (w: u32)
        ensures
            w == self@.width,
    {
        self.width
    }

    pub fn height(&self) -> (h: u32)
        ensures
            h == self@.height,
    {
        self.height
    }

    pub fn dimensions(&self) -> (d: (u32, u32))
        ensures
            d == (self@.width, self@.height),
    {
        (self.width, self.height)
    }

    pub fn pixels(&self) -> (p: &Vec<u8>)
        ensures
            p@ == self@.pixels,
            pixmap_wf(self@),
    {
        proof {
            use_type_invariant(self);
        }
        &self.pixels
    }

    pub fn into_raw(self) -> (p: Vec<u8>)
        ensures
            p@ == self@.pixels,
    {
        self.pixels
    }

    /// The texture turned 90 degrees clockwise.
    pub fn rotate90(&self) -> (t: Texture)
        ensures
            t@ == rotate_pixmap(self@),
    {
        proof {
            use_type_invariant(self);
            vstd::arithmetic::mul::lemma_mul_is_commutative(self.width as int, self.height as int);
        }
        let pixels = rgba_rotate90(self.width, self.height, &self.pixels);
        proof {
            assert(pixels@.len() == 4 * self.height * self.width) by (nonlinear_arith)
                requires
                    pixels@.len() == self.pixels@.len(),
                    self.pixels@.len() == 4 * self.width * self.height,
            ;
        }
        Texture { width: self.height, height: self.width, pixels }
    }

    /// A texture with no pixels.
    fn empty() -> (t: Texture)
        ensures
            t@.width == 0,
            t@.height == 0,
    {
        Texture { width: 0, height: 0, pixels: Vec::new() }
    }

    /// Blends `top` over this texture with the top-left corner of `top` at
    /// `(x, y)`.
    pub fn overlay(&mut self, top: &Texture, x: u32, y: u32)
        ensures
            final(self)@ == overlay_pixmap(old(self)@, top@, x as int, y as int),
            overlay_facts(old(self)@, top@, x as int, y as int, final(self)@),
    {
        let mut t = Texture::empty();
        std::mem::swap(&mut t, self);
        let t = t.overlaid(top, x, y);
        *self = t;
    }

    /// This texture with `top` blended over it, the top-left corner of `top`
    /// at `(x, y)`.
    pub fn overlaid(self, top: &Texture, x: u32, y: u32) -> (t: Texture)
        ensures
            t@ == overlay_pixmap(self@, top@, x as int, y as int),
            overlay_facts(self@, top@, x as int, y as int, t@),
    {
        proof {
            use_type_invariant(&self);
            use_type_invariant(top);
        }
        let Texture { width, height, mut pixels } = self;
        rgba_overlay(&mut pixels, width, height, &top.pixels, top.width, top.height, x as i64, y as i64);
        Texture { width, height, pixels }
    }
}

impl Clone for Texture {
    fn clone(&self) -> (t: Self)
        ensures
            t@ == self@,
    {
        proof {
            use_type_invariant(self);
        }
        let pixels = self.pixels.clone();
        assert(pixels@ =~= self.pixels@);
        Texture { width: self.width, height: self.height, pixels }
    }
}

} // verus!
