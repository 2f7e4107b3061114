//! The textures that go into an atlas, and the choice of files to load them from.

use vstd::prelude::*;
use crate::texture::{pixmap_wf, Pixmap, Texture};
use image::{ImageError, ImageFormat};

verus! {

/// The abstract value of a [`TextureData`].
pub struct TextureInfo {
    pub name: Seq<char>,
    pub texture: Pixmap,
    pub w: u32,
    pub h: u32,
}

/// A texture to pack, with its name and the size of the cell it takes in the
/// atlas (its size plus the padding, with width and height swapped once the
/// texture is turned).
pub struct TextureData {
    pub name: String,
    pub texture: Texture,
    pub w: u32,
    pub h: u32,
}

impl View for TextureData {
    type V = TextureInfo;

    open spec fn view(&self) -> TextureInfo {
        TextureInfo { name: self.name@, texture: self.texture@, w: self.w, h: self.h }
    }
}

/// The texture with the sides of its cell swapped.
pub open spec fn swapped(t: TextureInfo) -> TextureInfo {
    TextureInfo { w: t.h, h: t.w, ..t }
}

/// Swapping the sides of a cell twice gives the cell back: `rotate` undoes itself.
pub proof fn lemma_rotate_twice(t: TextureInfo)
    ensures
        swapped(swapped(t)) == t,
{
}

/// The abstract values of a sequence of textures.
pub open spec fn infos(s: Seq<TextureData>) -> Seq<TextureInfo> {
    s.map_values(|t: TextureData| t@)
}

impl TextureData {
    pub fn new(name: String, texture: Texture, padding: u32) -> (t: Self)
        requires
            texture@.width + padding <= u32::MAX,
            texture@.height + padding <= u32::MAX,
        ensures
            t@ == (TextureInfo {
                name: name@,
                texture: texture@,
                w: (texture@.width + padding) as u32,
                h: (texture@.height + padding) as u32,
            }),
    {
        let w = texture.dimensions().0 + padding;
        let h = texture.dimensions().1 + padding;
        return TextureData { name, texture, w, h };
    }

    /// Swaps the width and height of the cell.
    pub fn rotate(&mut self)
        ensures
            final(self)@ == swapped(old(self)@),
    {
        let w = self.w;
        self.w = self.h;
        self.h = w;
    }
}

impl Clone for TextureData {
    fn clone(&self) -> (t: Self)
        ensures
            t@ == self@,
    {
        TextureData { name: self.name.clone(), texture: self.texture.clone(), w: self.w, h: self.h }
    }
}

/// Unicode lowercase of a string, as `str::to_lowercase` computes it.
pub uninterp spec fn lowercase(s: Seq<char>) -> Seq<char>;

/// Every character of `s` is ASCII.
pub open spec fn all_ascii(s: Seq<char>) -> bool {
    forall|i: int| 0 <= i < s.len() ==> (s[i] as u32) < 128
}

/// `str::to_lowercase`. Claimed: the result is `lowercase` of the input
/// (the Unicode case mapping, which the crate does not spell out); on ASCII
/// text that mapping makes the capitals `A`..`Z` small and keeps the rest.
#[verifier::external_body]
fn to_lowercase(s: &str) -> (r: String)
    ensures
        r@ == lowercase(s@),
        all_ascii(s@) ==> r@ == ascii_lowercase(s@),
{
    s.to_lowercase()
}

/// A file extension of a supported image format: `png`, `webp` or `jpg`,
/// compared after lowercasing.
pub open spec fn supported_extension(ext: Seq<char>) -> bool {
    let l = lowercase(ext);
    l == "png"@ || l == "webp"@ || l == "jpg"@
}

/// Whether a file with this extension is collected as an image.
pub fn is_supported_extension(ext: &str) -> (b: bool)
    ensures
        b == supported_extension(ext@),
        all_ascii(ext@) ==> (b <==> {
            let l = ascii_lowercase(ext@);
            l == "png"@ || l == "webp"@ || l == "jpg"@
        }),
{
    let lower = to_lowercase(ext);
    lower == "png".to_owned() || lower == "webp".to_owned() || lower == "jpg".to_owned()
}

#[verifier::external_type_specification]
#[verifier::external_body]
pub struct ExImageFormat(ImageFormat);

#[verifier::external_type_specification]
#[verifier::external_body]
pub struct ExImageError(ImageError);

/// `s` with the ASCII capitals made small, other characters kept.
pub open spec fn ascii_lowercase(s: Seq<char>) -> Seq<char> {
    Seq::new(
        s.len(),
        |i: int|
            if 'A' <= s[i] <= 'Z' {
                ((s[i] as u32) + 32) as char
            } else {
                s[i]
            },
    )
}

/// The file extensions for which the `image` crate knows a format.
pub open spec fn known_image_extension(ext: Seq<char>) -> bool {
    seq![
        "avif"@, "jpg"@, "jpeg"@, "jfif"@, "png"@, "apng"@, "gif"@, "webp"@, "tif"@, "tiff"@,
        "tga"@, "dds"@, "bmp"@, "ico"@, "hdr"@, "exr"@, "pbm"@, "pam"@, "ppm"@, "pgm"@, "pnm"@,
        "ff"@, "qoi"@,
    ].contains(ascii_lowercase(ext))
}

/// `image::ImageFormat::from_extension`. Claimed, as its source shows: it
/// gives a format exactly when the extension, with ASCII capitals made small,
/// is one in its table. Which format it gives is not stated.
#[verifier::external_body]
fn image_format_from_extension(ext: &str) -> (f: Option<ImageFormat>)
    ensures
        f is Some <==> known_image_extension(ext@),
{
    ImageFormat::from_extension(ext)
}

/// What decoding the bytes of an image file in the format named by a
/// (lowercase) extension gives, as 8-bit RGBA: its width, height and raw
/// buffer, or `None` where decoding fails.
pub uninterp spec fn decoded_rgba8(bytes: Seq<u8>, ext: Seq<char>) -> Option<(u32, u32, Seq<u8>)>;

/// `image::ImageReader::with_format(..).decode()` on the bytes of an image
/// file, in the format that `ImageFormat::from_extension` gives for `ext`,
/// turned into 8-bit RGBA (`DynamicImage::into_rgba8`) and taken apart into
/// its size and raw buffer. Claimed: the outcome is `decoded_rgba8` of the
/// bytes and the lowercased extension (a reader made by `with_format` holds
/// the format, default limits and the bytes, and nothing else; the format
/// depends on the extension only through its ASCII lowercase), and a decoded
/// buffer holds four bytes per pixel. The decoded pixels themselves and which
/// error comes are not stated.
#[verifier::external_body]
fn decode_rgba8(bytes: &[u8], ext: &str) -> (r: Result<(u32, u32, Vec<u8>), ImageError>)
    requires
        known_image_extension(ext@),
    ensures
        r is Ok <==> decoded_rgba8(bytes@, ascii_lowercase(ext@)) is Some,
        r matches Ok((w, h, px)) ==> decoded_rgba8(bytes@, ascii_lowercase(ext@)) == Some(
            (w, h, px@),
        ) && px@.len() == 4 * w * h,
{
    let format = ImageFormat::from_extension(ext).unwrap();
    let img = image::ImageReader::with_format(std::io::Cursor::new(bytes), format).decode()?.into_rgba8();
    let (w, h) = img.dimensions();
    Ok((w, h, img.into_raw()))
}

/// Why an image file could not be made into a texture.
pub enum LoadError {
    /// The file extension names no image format.
    UnsupportedExtension,
    /// The image could not be decoded.
    Decode(ImageError),
    /// The image's width or height plus the padding leaves the `u32` range.
    PaddingOverflow,
}

/// The texture made from a decoded image: its name, its RGBA buffer, and its
/// cell padded by `padding`; a decoding error is passed on, and a padded
/// side beyond `u32::MAX` is refused.
pub fn texture_from_decoded(
    name: String,
    decoded: Result<(u32, u32, Vec<u8>), ImageError>,
    padding: u32,
) -> (r: Result<TextureData, LoadError>)
    requires
        decoded matches Ok((w, h, px)) ==> px@.len() == 4 * w * h,
    ensures
        decoded matches Err(e) ==> r == Err::<TextureData, LoadError>(LoadError::Decode(e)),
        decoded matches Ok((w, h, px)) ==> {
            if w + padding > u32::MAX || h + padding > u32::MAX {
                r matches Err(LoadError::PaddingOverflow)
            } else {
                r matches Ok(t) && t@ == (TextureInfo {
                    name: name@,
                    texture: Pixmap { width: w, height: h, pixels: px@ },
                    w: (w + padding) as u32,
                    h: (h + padding) as u32,
                })
            }
        },
{
    match decoded {
        Err(e) => Err(LoadError::Decode(e)),
        Ok((w, h, px)) => {
            if w > u32::MAX - padding || h > u32::MAX - padding {
                return Err(LoadError::PaddingOverflow);
            }
            match Texture::from_raw(w, h, px) {
                Some(texture) => Ok(TextureData::new(name, texture, padding)),
                None => Err(LoadError::PaddingOverflow),
            }
        },
    }
}

/// Decodes the bytes of an image file, in the format its extension names,
/// into a texture with the given name and padding. It fails with
/// `UnsupportedExtension` exactly when the extension names no format, with
/// `Decode` when the bytes do not decode in that format, and with
/// `PaddingOverflow` when a padded side leaves the `u32` range; otherwise the
/// texture is the decoded image, with that name and its cell padded by
/// `padding`.
pub fn load_texture(name: String, bytes: &[u8], ext: &str, padding: u32) -> (r: Result<TextureData, LoadError>)
    ensures
        r matches Err(LoadError::UnsupportedExtension) <==> !known_image_extension(ext@),
        known_image_extension(ext@) ==> match decoded_rgba8(bytes@, ascii_lowercase(ext@)) {
            None => r matches Err(LoadError::Decode(_)),
            Some((w, h, px)) => if w + padding > u32::MAX || h + padding > u32::MAX {
                r matches Err(LoadError::PaddingOverflow)
            } else {
                r matches Ok(t) && t@ == (TextureInfo {
                    name: name@,
                    texture: Pixmap { width: w, height: h, pixels: px },
                    w: (w + padding) as u32,
                    h: (h + padding) as u32,
                })
            },
        },
        r matches Ok(t) ==> {
            &&& t@.name == name@
            &&& pixmap_wf(t@.texture)
            &&& t@.w == t@.texture.width + padding
            &&& t@.h == t@.texture.height + padding
        },
{
    match image_format_from_extension(ext) {
        None => Err(LoadError::UnsupportedExtension),
        Some(_) => texture_from_decoded(name, decode_rgba8(bytes, ext), padding),
    }
}

} // verus!
