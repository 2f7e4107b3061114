use atlas_packer::image_extract::{is_supported_extension, load_texture, texture_from_decoded, LoadError, TextureData};
use atlas_packer::texture::Texture;

#[test]
fn texture_data_new_pads_cell() {
    let t = TextureData::new("a".to_string(), Texture::new(3, 5), 2);
    assert_eq!((t.w, t.h), (5, 7));
    assert_eq!(t.name, "a");
    assert_eq!(t.texture.dimensions(), (3, 5));
}

#[test]
fn texture_data_rotate_swaps_and_undoes() {
    let mut t = TextureData::new("a".to_string(), Texture::new(3, 5), 0);
    t.rotate();
    assert_eq!((t.w, t.h), (5, 3));
    assert_eq!(t.texture.dimensions(), (3, 5));
    t.rotate();
    assert_eq!((t.w, t.h), (3, 5));
}

fn png_bytes(w: u32, h: u32) -> Vec<u8> {
    let mut img = image::RgbaImage::new(w, h);
    for (x, y, p) in img.enumerate_pixels_mut() {
        *p = image::Rgba([x as u8, y as u8, 7, 255]);
    }
    let mut out = std::io::Cursor::new(Vec::new());
    img.write_to(&mut out, image::ImageFormat::Png).unwrap();
    out.into_inner()
}

#[test]
fn load_texture_decodes_png() {
    let t = match load_texture("pic".to_string(), &png_bytes(3, 2), "PNG", 2) {
        Ok(t) => t,
        Err(_) => panic!("decoding failed"),
    };
    assert_eq!(t.name, "pic");
    assert_eq!(t.texture.dimensions(), (3, 2));
    assert_eq!((t.w, t.h), (5, 4));
    let i = 4 * (1 * 3 + 2);
    assert_eq!(&t.texture.pixels()[i..i + 4], &[2, 1, 7, 255]);
}

#[test]
fn load_texture_refuses_unknown_extension() {
    assert!(matches!(load_texture("x".to_string(), &png_bytes(1, 1), "txt", 0), Err(LoadError::UnsupportedExtension)));
    assert!(matches!(load_texture("x".to_string(), &png_bytes(1, 1), "", 0), Err(LoadError::UnsupportedExtension)));
}

#[test]
fn load_texture_passes_on_decode_error() {
    assert!(matches!(load_texture("x".to_string(), &[1, 2, 3], "png", 0), Err(LoadError::Decode(_))));
}

#[test]
fn load_texture_refuses_padding_overflow() {
    assert!(matches!(load_texture("x".to_string(), &png_bytes(2, 1), "png", u32::MAX - 1), Err(LoadError::PaddingOverflow)));
    assert!(load_texture("x".to_string(), &png_bytes(1, 1), "png", u32::MAX - 1).is_ok());
}

#[test]
fn texture_from_decoded_builds_cell() {
    let r = texture_from_decoded("n".to_string(), Ok((1, 1, vec![1, 2, 3, 4])), 3);
    let t = match r {
        Ok(t) => t,
        Err(_) => panic!("expected a texture"),
    };
    assert_eq!((t.w, t.h), (4, 4));
    assert_eq!(t.texture.pixels(), &vec![1, 2, 3, 4]);
    assert!(matches!(texture_from_decoded("n".to_string(), Ok((u32::MAX, 0, vec![])), 1), Err(LoadError::PaddingOverflow)));
}

#[test]
fn supported_extensions_ignore_case() {
    assert!(is_supported_extension("png"));
    assert!(is_supported_extension("PNG"));
    assert!(is_supported_extension("WebP"));
    assert!(is_supported_extension("jpg"));
    assert!(is_supported_extension("JPG"));
    assert!(!is_supported_extension("jpeg"));
    assert!(!is_supported_extension("gif"));
    assert!(!is_supported_extension(""));
    assert!(!is_supported_extension("png "));
}

#[test]
fn load_texture_decodes_the_given_bytes() {
    let a = load_texture("a".to_string(), &png_bytes(4, 1), "png", 0);
    let b = load_texture("b".to_string(), &png_bytes(1, 5), "Png", 1);
    match (a, b) {
        (Ok(a), Ok(b)) => {
            assert_eq!(a.texture.dimensions(), (4, 1));
            assert_eq!((a.w, a.h), (4, 1));
            assert_eq!(b.texture.dimensions(), (1, 5));
            assert_eq!((b.w, b.h), (2, 6));
            assert_eq!(&b.texture.pixels()[16..20], &[0, 4, 7, 255]);
        }
        _ => panic!("decoding failed"),
    }
}
